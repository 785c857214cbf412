use std::collections::HashMap;

use algorithms::pretree::parse::{format_rule, is_variable, parse_path, parse_rule};
use algorithms::pretree::{PreTree, PreTreeErr, Tree};

#[test]
fn test_sotre() {
    let mut p = PreTree::new();
    assert!(p.store("GET", "/pet").is_ok());
    assert!(p.store("GET", "/pet/hi").is_ok());
    assert_eq!(
        Err(PreTreeErr::Duplicated(String::from("/pet"))),
        p.store("GET", "/pet")
    );

    assert!(p.store("GET", "/pet/{petId}/").is_ok());
    assert!(p.store("GET", "/pet/2/").is_ok());
    assert_eq!(
        Err(PreTreeErr::Duplicated(String::from("/pet/{petId}/"))),
        p.store("GET", "/pet/{petId}/")
    );
    assert_eq!(
        Err(PreTreeErr::Ambiguity(String::from("/pet/{petName}/"))),
        p.store("GET", "/pet/{petName}/")
    );
    assert!(p.store("GET", "/pet/{petId}/{petName}").is_ok());
    assert_eq!(
        Err(PreTreeErr::Ambiguity(String::from("/pet/{petId}/{petSex}"))),
        p.store("GET", "/pet/{petId}/{petSex}")
    );
    assert_eq!(
        Err(PreTreeErr::Ambiguity(String::from(
            "/pet/{petName}/{petSex}"
        ))),
        p.store("GET", "/pet/{petName}/{petSex}")
    );
    assert!(p.store("GET", "/pet/{petId}/info").is_ok());
    assert!(p.store("GET", "/pet/{petId}/test").is_ok());
    assert_eq!(
        Err(PreTreeErr::Duplicated(String::from("/pet/{petId}/info"))),
        p.store("GET", "/pet/{petId}/info")
    );
}

#[test]
fn test_match() {
    let data: [[&str; 3]; 10] = [
        ["GET", "/pet", "/pet"],
        ["GET", "/pet/hi", "/pet/hi"],
        ["GET", "/pet/{petId}", "/pet/1"],
        ["POST", "/pet/{petId}", "/pet/2"],
        ["POST", "/pet/3", "/pet/3"],
        ["POST", "/pet/{petId}/uploadImage", "/pet/1/uploadImage"],
        ["POST", "/pet/{petId}/info", "/pet/1/info"],
        [
            "POST",
            "/pet/{petId}/{petName}/{petSex}/info",
            "/pet/1/z/girl/info",
        ],
        [
            "POST",
            "/test/{petId}/{petName}/{petSex}/info",
            "/test/1/z/girl/info",
        ],
        ["GET", "/store/inventory", "/store/inventory"],
    ];

    let mut p = PreTree::new();

    for v in data {
        let method = v[0];
        let source_rule = v[1];
        let res = p.store(method, source_rule);
        assert_eq!(
            true,
            res.is_ok(),
            "store method:{:?}, err:{:?}",
            method,
            res,
        );
    }

    assert!(p.query("GET", "/pets").is_none());
    assert!(p.query("GET", "/store").is_none());
    assert!(p.query("POST", "/pet/{petId}/info/xxxx").is_none());

    for v in data {
        let method = v[0];
        let source_rule = v[1];
        let url_path = v[2];
        let (rule, vars) = p.query(method, url_path).unwrap();
        let vars: HashMap<String, String> = vars.into_iter().collect();
        println!("rule:{:?} vars:{:?}", rule, vars);
        assert_eq!(source_rule, rule);

        match url_path {
            "/pet/1" => {
                assert_eq!(Some(&String::from("1")), vars.get("petId"));
            }
            "/pet/2" => {
                assert_eq!(Some(&String::from("2")), vars.get("petId"));
            }
            "/pet/1/uploadImage" | "/pet/1/info" => {
                assert_eq!(Some(&String::from("1")), vars.get("petId"));
            }
            "/pet/1/z/girl/info" | "/test/1/z/girl/info" => {
                let mut map = HashMap::new();
                map.insert("petName".into(), "z".into());
                map.insert("petSex".into(), "girl".into());
                map.insert("petId".into(), "1".into());

                assert_eq!(map, vars);
            }
            _ => assert!(vars.is_empty(), "{:?}", url_path),
        }
    }
}

#[test]
fn stored_rule_is_found_and_refused_twice() {
    let mut p = PreTree::new();
    assert_eq!(Ok(()), p.store("PUT", "/a/b/c"));
    let (rule, vars) = p.query("PUT", "/a/b/c").unwrap();
    assert_eq!("/a/b/c", rule);
    assert!(vars.is_empty());
    assert_eq!(
        Err(PreTreeErr::Duplicated(String::from("/a/b/c"))),
        p.store("PUT", "/a/b/c")
    );
    assert!(p.query("GET", "/a/b/c").is_none());
    assert!(p.query("PUT", "/a/b").is_none());
}

#[test]
fn stored_rule_stays_found_after_later_stores() {
    let mut p = PreTree::new();
    assert_eq!(Ok(()), p.store("GET", "/store/inventory"));
    assert_eq!(Ok(()), p.store("GET", "/store/{id}"));
    assert_eq!(Ok(()), p.store("GET", "/store"));
    assert_eq!(Ok(()), p.store("POST", "/store/inventory"));
    assert!(p.store("GET", "/store/{name}").is_err());
    assert!(p.store("HEAD", "/store/inventory/more").is_ok());
    let (rule, vars) = p.query("GET", "/store/inventory").unwrap();
    assert_eq!("/store/inventory", rule);
    assert!(vars.is_empty());
    let (rule, _) = p.query("GET", "/store").unwrap();
    assert_eq!("/store", rule);
}

#[test]
fn unknown_method_is_refused() {
    let mut p = PreTree::new();
    assert_eq!(
        Err(PreTreeErr::MethodDisallow(String::from("FETCH"))),
        p.store("FETCH", "/x")
    );
    assert!(p.query("FETCH", "/x").is_none());
    assert_eq!(
        Err(PreTreeErr::MethodDisallow(String::from("get"))),
        p.store("get", "/x")
    );
    for m in ["GET", "HEAD", "POST", "PUT", "PATCH", "DELETE", "CONNECT", "OPTIONS", "TRACE"] {
        assert_eq!(Ok(()), p.store(m, "/x"));
    }
}

#[test]
fn first_segment_is_never_a_variable_match() {
    let mut p = PreTree::new();
    assert!(p.store("GET", "/{id}").is_ok());
    assert!(p.query("GET", "/7").is_none());
    let (rule, _) = p.query("GET", "/:id").unwrap();
    assert_eq!("/{id}", rule);
}

#[test]
fn rules_and_paths_split_into_segments() {
    assert_eq!(":id/x", format_rule("{id}/x"));
    assert_eq!(vec!["a", ":b", "c"], parse_rule("/a//{b}/c/"));
    assert_eq!(vec!["a", "{b}"], parse_path("a/{b}"));
    assert!(is_variable(":x"));
    assert!(!is_variable("x:"));
    assert_eq!("id", Tree::variable("::id", true).var_name());
}

#[test]
fn failed_stores_change_nothing_and_prefixes_are_not_found() {
    let mut p = PreTree::new();
    assert_eq!(Ok(()), p.store("GET", "/store/inventory"));
    assert!(p.query("GET", "/store").is_none());
    assert_eq!(
        Err(PreTreeErr::Duplicated(String::from("/store/inventory"))),
        p.store("GET", "/store/inventory")
    );
    assert!(p.query("GET", "/store").is_none());
    let (rule, vars) = p.query("GET", "/store/inventory").unwrap();
    assert_eq!("/store/inventory", rule);
    assert!(vars.is_empty());
}

#[test]
fn a_rule_stored_earlier_is_duplicated_later() {
    let mut p = PreTree::new();
    assert_eq!(Ok(()), p.store("GET", "/pet"));
    assert_eq!(Ok(()), p.store("GET", "/pet/hi"));
    assert_eq!(Ok(()), p.store("POST", "/pet"));
    assert_eq!(
        Err(PreTreeErr::Duplicated(String::from("/pet"))),
        p.store("GET", "/pet")
    );
}
