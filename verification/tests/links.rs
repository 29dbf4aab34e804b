use std::io::{Cursor, Read};

use cloud_store::blob::encode_object;
use cloud_store::error::{Missing, StoreError};
use cloud_store::links::{link_download, link_url, DirectLink, Download, LinkRegistry};
use cloud_store::store::StoredNode;
use cloud_store::token::{parse_token, token_text};

fn link(token: &str, path: &str) -> DirectLink {
    DirectLink { token: token.to_string(), path: path.to_string() }
}

#[test]
fn direct_link_idempotence() {
    let mut registry = LinkRegistry::new();
    let first = registry.get_or_create("https://cloud.example/direct", "docs/readme.txt");
    let second = registry.get_or_create("https://cloud.example/direct", "docs/readme.txt");
    assert_eq!(first, second);
    assert_eq!(registry.links.len(), 1);
    assert_eq!(registry.links[0].path, "docs/readme.txt");
    assert_eq!(first, format!("https://cloud.example/direct/{}", registry.links[0].token));
    assert_eq!(parse_token(&registry.links[0].token).map(token_text), Some(registry.links[0].token.clone()));
}

#[test]
fn a_known_path_keeps_its_link() {
    let mut registry = LinkRegistry { links: vec![link("42", "a"), link("7", "b"), link("9", "a")] };
    assert_eq!(registry.get_or_create_with("base", "b", 1000), "base/7");
    assert_eq!(registry.get_or_create_with("base", "a", 1000), "base/42");
    assert_eq!(registry.get_or_create("base", "a"), "base/42");
    assert_eq!(registry.links.len(), 3);
}

#[test]
fn a_new_path_gets_the_fresh_token() {
    let mut registry = LinkRegistry::new();
    assert_eq!(registry.get_or_create_with("base", "a", 12345), "base/12345");
    assert_eq!(registry.links, vec![link("12345", "a")]);
    assert_eq!(registry.get_or_create_with("base", "a", 999), "base/12345");
    assert_eq!(registry.get_or_create_with("base", "b", u128::MAX), format!("base/{}", u128::MAX));
    assert_eq!(registry.links, vec![link("12345", "a"), link(&u128::MAX.to_string(), "b")]);
}

#[test]
fn spellings_of_one_place_are_distinct_paths() {
    let mut registry = LinkRegistry::new();
    registry.get_or_create_with("base", "docs", 1);
    registry.get_or_create_with("base", "docs/", 2);
    assert_eq!(registry.links, vec![link("1", "docs"), link("2", "docs/")]);
    assert_eq!(registry.find_by_path("docs"), Some(0));
    assert_eq!(registry.find_by_path("docs/"), Some(1));
    assert_eq!(registry.find_by_path("doc"), None);
}

#[test]
fn fresh_links_of_two_paths_differ() {
    let mut registry = LinkRegistry::new();
    let a = registry.get_or_create("base", "a");
    let b = registry.get_or_create("base", "b");
    assert_ne!(a, b);
    assert_eq!(registry.links.len(), 2);
    assert_ne!(registry.links[0].token, registry.links[1].token);
}

#[test]
fn token_text_is_decimal() {
    assert_eq!(token_text(0), "0");
    assert_eq!(token_text(7), "7");
    assert_eq!(token_text(10), "10");
    assert_eq!(token_text(1234567890), "1234567890");
    assert_eq!(token_text(u128::MAX), "340282366920938463463374607431768211455");
}

#[test]
fn parse_token_reads_decimal() {
    assert_eq!(parse_token("0"), Some(0));
    assert_eq!(parse_token("42"), Some(42));
    assert_eq!(parse_token("+42"), Some(42));
    assert_eq!(parse_token("00042"), Some(42));
    assert_eq!(parse_token("340282366920938463463374607431768211455"), Some(u128::MAX));
}

#[test]
fn parse_token_rejects_what_is_no_token() {
    assert_eq!(parse_token(""), None);
    assert_eq!(parse_token("+"), None);
    assert_eq!(parse_token("-1"), None);
    assert_eq!(parse_token("12a"), None);
    assert_eq!(parse_token(" 12"), None);
    assert_eq!(parse_token("12 "), None);
    assert_eq!(parse_token("++1"), None);
    assert_eq!(parse_token("1+"), None);
    assert_eq!(parse_token("١٢"), None);
    assert_eq!(parse_token("340282366920938463463374607431768211456"), None);
    assert_eq!(parse_token("9999999999999999999999999999999999999999"), None);
}

#[test]
fn parse_token_agrees_with_the_standard_parser() {
    for text in ["0", "+0", "18446744073709551616", "0x10", "1_000", "", "+", "007"] {
        assert_eq!(parse_token(text), text.parse::<u128>().ok());
    }
    for n in [0u128, 9, 10, 99, 100, 1 << 64, u128::MAX - 1] {
        assert_eq!(token_text(n), n.to_string());
        assert_eq!(parse_token(&token_text(n)), Some(n));
    }
}

#[test]
fn resolve_finds_the_path_of_a_token() {
    let registry = LinkRegistry { links: vec![link("42", "docs/a.txt"), link("7", "pics"), link("42", "late")] };
    assert_eq!(registry.resolve("42"), Ok("docs/a.txt".to_string()));
    assert_eq!(registry.resolve("7"), Ok("pics".to_string()));
    assert_eq!(registry.resolve("+7"), Ok("pics".to_string()));
    assert_eq!(registry.resolve("007"), Ok("pics".to_string()));
    assert_eq!(registry.find_by_token("42"), Some(0));
    assert_eq!(registry.find_by_token("43"), None);
}

#[test]
fn resolve_fails_for_unknown_and_malformed_tokens() {
    let registry = LinkRegistry { links: vec![link("42", "docs/a.txt")] };
    assert_eq!(registry.resolve("43"), Err(StoreError::NotFound(Missing::Token)));
    assert_eq!(registry.resolve("abc"), Err(StoreError::NotFound(Missing::Token)));
    assert_eq!(registry.resolve(""), Err(StoreError::NotFound(Missing::Token)));
    assert_eq!(registry.resolve("-42"), Err(StoreError::NotFound(Missing::Token)));
    assert_eq!(registry.resolve("abc").unwrap_err().http_status(), 404);
    assert_eq!(LinkRegistry::new().resolve("42"), Err(StoreError::NotFound(Missing::Token)));
}

#[test]
fn link_url_joins_base_and_token() {
    assert_eq!(link_url("https://host/cloud/direct", "123"), "https://host/cloud/direct/123");
    assert_eq!(link_url("", "123"), "/123");
}

#[test]
fn a_linked_file_is_handed_out_under_its_name() {
    let node = StoredNode::File { name: "readme.txt".to_string(), blob: encode_object(b"read me").unwrap() };
    assert_eq!(
        link_download("docs/readme.txt", Some(&node)),
        Ok(Download { bytes: b"read me".to_vec(), filename: "readme.txt".to_string() })
    );
    let broken = StoredNode::File { name: "readme.txt".to_string(), blob: b"junk".to_vec() };
    assert_eq!(link_download("docs/readme.txt", Some(&broken)), Err(StoreError::IoFailure));
}

#[test]
fn a_linked_directory_is_handed_out_as_an_archive() {
    let node = StoredNode::Directory {
        name: "pics".to_string(),
        children: vec![
            StoredNode::File { name: "a.png".to_string(), blob: encode_object(&[1, 2, 3]).unwrap() },
            StoredNode::Directory {
                name: "old".to_string(),
                children: vec![StoredNode::File {
                    name: "b.png".to_string(),
                    blob: encode_object(&[4, 5]).unwrap(),
                }],
            },
        ],
    };
    let download = link_download("media/pics", Some(&node)).unwrap();
    assert_eq!(download.filename, "pics.zip");
    let mut zip = zip::ZipArchive::new(Cursor::new(download.bytes)).unwrap();
    assert_eq!(zip.len(), 2);
    let mut content = Vec::new();
    zip.by_name("a.png").unwrap().read_to_end(&mut content).unwrap();
    assert_eq!(content, vec![1, 2, 3]);
    content.clear();
    zip.by_name("old/b.png").unwrap().read_to_end(&mut content).unwrap();
    assert_eq!(content, vec![4, 5]);
}

#[test]
fn a_link_to_what_is_gone_is_not_found() {
    assert_eq!(link_download("docs/readme.txt", None), Err(StoreError::NotFound(Missing::Path)));
    assert_eq!(link_download("docs/readme.txt", None).unwrap_err().http_status(), 410);
}

#[test]
fn a_linked_directory_with_an_unreadable_file_fails() {
    let node = StoredNode::Directory {
        name: "pics".to_string(),
        children: vec![StoredNode::File { name: "a.png".to_string(), blob: b"junk".to_vec() }],
    };
    assert_eq!(link_download("media/pics", Some(&node)), Err(StoreError::IoFailure));
    let empty = StoredNode::Directory { name: "none".to_string(), children: Vec::new() };
    let download = link_download("media/none", Some(&empty)).unwrap();
    assert_eq!(download.filename, "none.zip");
    assert_eq!(zip::ZipArchive::new(Cursor::new(download.bytes)).unwrap().len(), 0);
}
