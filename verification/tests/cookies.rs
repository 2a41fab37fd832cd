use wasm_cookies::cookies::all;
use wasm_cookies::cookies::all_iter;
use wasm_cookies::cookies::all_iter_raw;
use wasm_cookies::cookies::all_raw;
use wasm_cookies::cookies::delete;
use wasm_cookies::cookies::delete_raw;
use wasm_cookies::cookies::get;
use wasm_cookies::cookies::get_raw;
use wasm_cookies::cookies::process_key_value_str;
use wasm_cookies::cookies::set_raw;
use wasm_cookies::cookies::AllDecodeError;
use wasm_cookies::cookies::CookieOptions;
use wasm_cookies::cookies::Cookies;
use wasm_cookies::cookies::SameSite;

#[test]
fn test_all_raw() {
    let cookies = all_raw(" key1=value1;key2=value2 ; key3  = value3");
    assert_eq!(cookies.len(), 3);
    assert_eq!(cookies.get("key1").unwrap(), "value1");
    assert_eq!(cookies.get("key2").unwrap(), "value2");
    assert_eq!(cookies.get("key3").unwrap(), "value3");

    let cookies = all_raw("");
    assert!(cookies.is_empty());
}

#[test]
fn test_all() {
    let cookies =
        all("key%20%251=value%20%251  ;key%20%252=value%20%252;key%20%253  = value%20%253")
            .unwrap();
    assert_eq!(cookies.len(), 3);
    assert_eq!(cookies.get("key %1").unwrap(), "value %1");
    assert_eq!(cookies.get("key %2").unwrap(), "value %2");
    assert_eq!(cookies.get("key %3").unwrap(), "value %3");

    let cookies = all("").unwrap();
    assert!(cookies.is_empty());

    match all("key1=value1;key2%AA=value2") {
        Err(AllDecodeError::Key(raw_key, _)) => assert_eq!(raw_key, "key2%AA"),
        _ => panic!(),
    }

    match all("key1=value1;key%202=value2%AA") {
        Err(AllDecodeError::Value(key, _)) => assert_eq!(key, "key 2"),
        _ => panic!(),
    }
}

#[test]
fn test_get_raw() {
    assert_eq!(
        get_raw("key1=value1 ; key2= value2;key3=value3", "key2"),
        Some("value2".to_owned())
    );

    assert_eq!(
        get_raw("key1=value1 ; key2= value2;key3=value3", "key4"),
        None
    );
}

#[test]
fn test_get() {
    assert_eq!(
        get("key1=value1 ; key%202= value%202;key3=value3", "key 2")
            .map(|result| result.unwrap()),
        Some("value 2".to_owned())
    );

    assert!(get("key1=value1 ; key2= value2;key3=value3", "key4").is_none());
    assert!(get("key1=value1 ; key2= value2%AA;key3=value3", "key2")
        .unwrap()
        .is_err());
}

#[test]
fn test_set_raw() {
    assert_eq!(
        set_raw("key", "value", &CookieOptions::default()),
        "key=value;samesite=lax"
    );

    assert_eq!(
        set_raw("key", "value", &CookieOptions::default().with_path("/path")),
        "key=value;path=/path;samesite=lax"
    );

    assert_eq!(
        set_raw(
            "key",
            "value",
            &CookieOptions::default()
                .with_path("/path")
                .with_domain("example.com")
        ),
        "key=value;path=/path;domain=example.com;samesite=lax"
    );

    assert_eq!(
        set_raw(
            "key",
            "value",
            &CookieOptions::default()
                .with_path("/path")
                .with_domain("example.com")
                .secure()
        ),
        "key=value;path=/path;domain=example.com;secure;samesite=lax"
    );
}

#[test]
fn all_iter_raw_keeps_order_and_duplicates() {
    assert_eq!(
        all_iter_raw("b=2; a=1 ;b=3"),
        vec![("b", "2"), ("a", "1"), ("b", "3")]
    );
    assert!(all_iter_raw("").is_empty());
}

#[test]
fn segments_without_equals_sign_give_no_pair() {
    let cookies = all_raw("a=1;garbage;b=2");
    assert_eq!(cookies.len(), 2);
    assert_eq!(cookies.get("a").unwrap(), "1");
    assert_eq!(cookies.get("b").unwrap(), "2");
    assert_eq!(all_iter_raw("a=1;garbage;b=2"), vec![("a", "1"), ("b", "2")]);
    assert!(all_iter_raw("   ;\t; ;").is_empty());
}

#[test]
fn empty_keys_and_values_are_pairs() {
    assert_eq!(all_iter_raw("=x"), vec![("", "x")]);
    assert_eq!(all_iter_raw("x="), vec![("x", "")]);
    assert_eq!(all_iter_raw("="), vec![("", "")]);
    assert_eq!(all_iter_raw(" = ;="), vec![("", ""), ("", "")]);
}

#[test]
fn only_the_first_equals_sign_separates() {
    assert_eq!(all_iter_raw("a=b=c"), vec![("a", "b=c")]);
    assert_eq!(all_iter_raw("a = b = c ; d==e"), vec![("a", "b = c"), ("d", "=e")]);
    assert_eq!(get_raw("token=abc==", "token"), Some("abc==".to_owned()));
}

#[test]
fn process_key_value_str_splits_and_trims() {
    assert_eq!(process_key_value_str("  key  =  value  "), Ok(("key", "value")));
    assert_eq!(process_key_value_str("key"), Err(()));
    assert_eq!(process_key_value_str(""), Err(()));
    assert_eq!(process_key_value_str("="), Ok(("", "")));
    assert_eq!(process_key_value_str("k=a=b"), Ok(("k", "a=b")));
    assert_eq!(
        process_key_value_str("\u{3000}k\u{e9}y\u{a0}=\u{2003}v\u{e4}l\u{1680}"),
        Ok(("k\u{e9}y", "v\u{e4}l"))
    );
}

#[test]
fn later_duplicate_wins_in_the_mapping() {
    let cookies = all_raw("a=1;b=2;a=3");
    assert_eq!(cookies.len(), 2);
    assert_eq!(cookies.get("a").unwrap(), "3");
    assert_eq!(cookies.get("b").unwrap(), "2");

    let cookies = all("a%20=1;a%20=2; %61%20=3").unwrap();
    assert_eq!(cookies.len(), 1);
    assert_eq!(cookies.get("a ").unwrap(), "3");
}

#[test]
fn first_duplicate_wins_in_a_lookup() {
    assert_eq!(get_raw("a=1;b=2;a=3", "a"), Some("1".to_owned()));
    assert_eq!(
        get("a=1;b=2;a=3", "a").map(|result| result.unwrap()),
        Some("1".to_owned())
    );
}

#[test]
fn lookup_matches_the_raw_key_exactly() {
    assert_eq!(get_raw("key%202=v", "key 2"), None);
    assert_eq!(get_raw("key%202=v", "key%202"), Some("v".to_owned()));
    assert_eq!(get_raw("Key=v", "key"), None);
    assert_eq!(get_raw("key=v%20w", "key"), Some("v%20w".to_owned()));
    assert!(get("key 2=v", "key 2").is_none());
}

#[test]
fn absent_is_not_corrupt() {
    assert_eq!(get_raw("", "key"), None);
    assert!(get("", "key").is_none());
    assert!(get("other=%AA", "key").is_none());
    assert!(get("key=%AA", "key").unwrap().is_err());
    assert_eq!(get_raw("key=%AA", "key"), Some("%AA".to_owned()));
}

#[test]
fn all_iter_decodes_each_pair_by_itself() {
    let outcomes = all_iter("a%20b=c%3Bd;bad%AA=x;k=%AA;z=1");
    assert_eq!(outcomes.len(), 4);
    match &outcomes[0] {
        Ok((key, value)) => {
            assert_eq!(key, "a b");
            assert_eq!(value, "c;d");
        }
        _ => panic!(),
    }
    match &outcomes[1] {
        Err(AllDecodeError::Key(raw_key, _)) => assert_eq!(raw_key, "bad%AA"),
        _ => panic!(),
    }
    match &outcomes[2] {
        Err(AllDecodeError::Value(key, _)) => assert_eq!(key, "k"),
        _ => panic!(),
    }
    match &outcomes[3] {
        Ok((key, value)) => {
            assert_eq!(key, "z");
            assert_eq!(value, "1");
        }
        _ => panic!(),
    }
    assert!(all_iter("").is_empty());
}

#[test]
fn first_failure_in_order_wins() {
    match all("a=%AA;b%AA=1") {
        Err(AllDecodeError::Value(key, _)) => assert_eq!(key, "a"),
        _ => panic!(),
    }
    match all("b%AA=%AA;a=%AA") {
        Err(AllDecodeError::Key(raw_key, _)) => assert_eq!(raw_key, "b%AA"),
        _ => panic!(),
    }
}

#[test]
fn decoding_follows_the_percent_signs() {
    let value = |s: &str| get(s, "k").unwrap().unwrap();
    assert_eq!(value("k=this%20that"), "this that");
    assert_eq!(value("k=this%2x%26that"), "this%2x&that");
    assert_eq!(value("k=this%2%26that"), "this%2&that");
    assert_eq!(value("k=%"), "%");
    assert_eq!(value("k=%2"), "%2");
    assert_eq!(value("k=%%41"), "%A");
    assert_eq!(value("k=a+b"), "a+b");
    assert_eq!(value("k=%e2%82%ac%E2%82%AC"), "\u{20ac}\u{20ac}");
    assert_eq!(value("k=\u{20ac}"), "\u{20ac}");
    assert!(get("k=%E2%82", "k").unwrap().is_err());
    assert!(get("k=%C0%80", "k").unwrap().is_err());
}

#[test]
fn set_encodes_name_and_value_only() {
    assert_eq!(
        wasm_cookies::cookies::set("key 1", "value;1", &CookieOptions::default()),
        "key%201=value%3B1;samesite=lax"
    );
    assert_eq!(
        wasm_cookies::cookies::set(
            "a=b",
            "100%",
            &CookieOptions::default().with_path("/a b").with_domain("ex ample")
        ),
        "a%3Db=100%25;path=/a b;domain=ex ample;samesite=lax"
    );
    assert_eq!(
        wasm_cookies::cookies::set("\u{20ac}~-_.", "AZaz09", &CookieOptions::default()),
        "%E2%82%AC~-_.=AZaz09;samesite=lax"
    );
    assert_eq!(wasm_cookies::cookies::set("", "", &CookieOptions::default()), "=;samesite=lax");
}

#[test]
fn every_attribute_in_its_place() {
    let options = CookieOptions::default()
        .with_same_site(SameSite::Strict)
        .secure()
        .expires_at_date("Wed, 21 Oct 2015 07:28:00 GMT")
        .with_domain("example.com")
        .with_path("/path");
    assert_eq!(
        set_raw("key", "value", &options),
        "key=value;path=/path;domain=example.com;expires=Wed, 21 Oct 2015 07:28:00 GMT;secure;samesite=strict"
    );
    let options = CookieOptions::default()
        .with_path("/path")
        .with_domain("example.com")
        .expires_at_date("Wed, 21 Oct 2015 07:28:00 GMT")
        .secure()
        .with_same_site(SameSite::Strict);
    assert_eq!(
        set_raw("key", "value", &options),
        "key=value;path=/path;domain=example.com;expires=Wed, 21 Oct 2015 07:28:00 GMT;secure;samesite=strict"
    );
}

#[test]
fn same_site_words() {
    assert_eq!(SameSite::Lax.cookie_string_value(), "lax");
    assert_eq!(SameSite::Strict.cookie_string_value(), "strict");
    assert_eq!(SameSite::Unrestricted.cookie_string_value(), "none");
    assert_eq!(SameSite::default(), SameSite::Lax);
    assert_eq!(
        set_raw(
            "k",
            "v",
            &CookieOptions::default().with_same_site(SameSite::Unrestricted)
        ),
        "k=v;samesite=none"
    );
    assert_eq!(
        set_raw(
            "k",
            "v",
            &CookieOptions::default()
                .with_same_site(SameSite::Strict)
                .with_same_site(SameSite::Lax)
        ),
        "k=v;samesite=lax"
    );
}

#[test]
fn default_options_name_nothing() {
    let options = CookieOptions::default();
    assert_eq!(options.path, None);
    assert_eq!(options.domain, None);
    assert_eq!(options.expires, None);
    assert!(!options.secure);
    assert_eq!(options.same_site, SameSite::Lax);
}

#[test]
fn builders_change_one_field() {
    let options = CookieOptions::default().with_path("/a");
    assert_eq!(options.path, Some("/a"));
    assert_eq!(options.domain, None);
    let options = options.with_domain("d");
    assert_eq!(options.path, Some("/a"));
    assert_eq!(options.domain, Some("d"));
    let options = options.expires_at_date("Thu, 01 Jan 1970 00:00:00 GMT");
    assert_eq!(
        options.expires,
        Some("Thu, 01 Jan 1970 00:00:00 GMT".to_owned())
    );
    assert!(!options.secure);
    let options = options.secure();
    assert!(options.secure);
    assert_eq!(options.same_site, SameSite::Lax);
    let options = options.with_path("/b");
    assert_eq!(options.path, Some("/b"));
    assert_eq!(options.domain, Some("d"));
    assert!(options.secure);
}

#[test]
fn delete_lets_the_cookie_expire_in_1970() {
    assert_eq!(delete_raw("key"), "key=;expires=Thu, 01 Jan 1970 00:00:00 GMT");
    assert_eq!(
        delete_raw("a b"),
        "a b=;expires=Thu, 01 Jan 1970 00:00:00 GMT"
    );
    assert_eq!(
        delete("a b;"),
        "a%20b%3B=;expires=Thu, 01 Jan 1970 00:00:00 GMT"
    );
    assert_eq!(delete_raw(""), "=;expires=Thu, 01 Jan 1970 00:00:00 GMT");
}

#[test]
fn set_then_get_gives_the_value_back() {
    let cases = [
        ("name", "value"),
        ("na me", "va lue"),
        ("a;b=c%d", "x;y=z%w "),
        (" padded ", " padded "),
        ("", ""),
        ("\u{20ac}\u{1f47e}", "\u{3000}\u{e9}"),
        ("%41", "%3B"),
    ];
    for (name, value) in cases {
        let options = CookieOptions::default()
            .with_path("/p;x=1")
            .with_domain("example.com")
            .secure();
        for options in [CookieOptions::default(), options] {
            let cookie_string = wasm_cookies::cookies::set(name, value, &options);
            assert_eq!(
                get(&cookie_string, name).map(|result| result.unwrap()),
                Some(value.to_owned())
            );
        }
    }
}

#[test]
fn set_raw_then_get_raw_gives_the_value_back() {
    let cookie_string = set_raw("key", "a=b c", &CookieOptions::default().secure());
    assert_eq!(get_raw(&cookie_string, "key"), Some("a=b c".to_owned()));
    assert_eq!(get_raw(&cookie_string, "samesite"), Some("lax".to_owned()));
    assert_eq!(get_raw(&cookie_string, "secure"), None);
}

#[test]
fn deleted_cookie_reads_as_empty() {
    assert_eq!(get_raw(&delete_raw("key"), "key"), Some("".to_owned()));
    assert_eq!(
        get(&delete("k y"), "k y").map(|result| result.unwrap()),
        Some("".to_owned())
    );
}

#[test]
fn cookies_hold_one_value_for_each_key() {
    let mut cookies = Cookies::new();
    assert!(cookies.is_empty());
    assert_eq!(cookies.len(), 0);
    assert!(!cookies.contains_key("a"));
    assert_eq!(cookies.get("a"), None);

    cookies.insert("a".to_owned(), "1".to_owned());
    cookies.insert("b".to_owned(), "2".to_owned());
    cookies.insert("a".to_owned(), "3".to_owned());
    assert!(!cookies.is_empty());
    assert_eq!(cookies.len(), 2);
    assert!(cookies.contains_key("a"));
    assert!(cookies.contains_key("b"));
    assert!(!cookies.contains_key("c"));
    assert_eq!(cookies.get("a"), Some(&"3".to_owned()));
    assert_eq!(cookies.get("b"), Some(&"2".to_owned()));
}

#[test]
fn whitespace_around_written_cookies_is_dropped() {
    let cookies = all_raw("\t a \u{a0}=\u{2003}1 ;b=  two words  ;\n a = 3 ");
    assert_eq!(cookies.len(), 2);
    assert_eq!(cookies.get("a").unwrap(), "3");
    assert_eq!(cookies.get("b").unwrap(), "two words");
    assert_eq!(
        all_iter_raw("\t a \u{a0}=\u{2003}1 ;b=  two words  ;\n a = 3 "),
        vec![("a", "1"), ("b", "two words"), ("a", "3")]
    );
}
