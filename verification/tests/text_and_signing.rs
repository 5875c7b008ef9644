use crypto_balance::assets::possessed_assets;
use crypto_balance::datetime::{get_uri_escaped_datetime, parse_datetime};
use crypto_balance::signing::get_mac_sha256;
use crypto_balance::text::{decimal_string, escape_colons_string, join, signed_decimal_string};

#[test]
fn decimals() {
    assert_eq!(decimal_string(0), "0");
    assert_eq!(decimal_string(9), "9");
    assert_eq!(decimal_string(10), "10");
    assert_eq!(decimal_string(1_620_000_000_000), "1620000000000");
    assert_eq!(decimal_string(u128::MAX), u128::MAX.to_string());
    assert_eq!(signed_decimal_string(-42), "-42");
    assert_eq!(signed_decimal_string(i64::MIN), i64::MIN.to_string());
    assert_eq!(signed_decimal_string(7), "7");
}

#[test]
fn joining() {
    let ids = vec!["BTC".to_string(), "ETH".to_string(), "ADA".to_string()];
    assert_eq!(join(&ids, ","), "BTC,ETH,ADA");
    assert_eq!(join(&ids[..1], ","), "BTC");
    assert_eq!(join(&[], ","), "");
}

#[test]
fn escaping_colons() {
    assert_eq!(escape_colons_string("a:b::c"), "a%3Ab%3A%3Ac");
    assert_eq!(escape_colons_string("none"), "none");
    assert_eq!(escape_colons_string("é:ü"), "é%3Aü");
}

#[test]
fn uri_escaped_datetime() {
    assert_eq!(get_uri_escaped_datetime(0), "1970-01-01T00%3A00%3A00Z");
    assert_eq!(get_uri_escaped_datetime(3_218_918_400_999_999_999), "2021-01-01T00%3A00%3A00Z");
    assert_eq!(get_uri_escaped_datetime(3_229_668_734_000_000_000), "2021-03-04T05%3A06%3A07Z");
    assert_eq!(get_uri_escaped_datetime(-1_000_000_001), "1969-12-31T23%3A59%3A59Z");
    assert_eq!(get_uri_escaped_datetime(-1), "1969-12-31T23%3A59%3A60Z");
}

#[test]
fn parsing_datetimes() {
    assert_eq!(parse_datetime("2021-01-01T00:00:00Z"), Some(3_218_918_400_000_000_000));
    assert_eq!(parse_datetime("2021-01-01T01:00:00+01:00"), Some(3_218_918_400_000_000_000));
    assert_eq!(parse_datetime("2021-01-01T00:00:00.250Z"), Some(3_218_918_400_250_000_000));
    assert_eq!(parse_datetime("2021-01-01T00:00:00.000000500Z"), Some(3_218_918_400_000_000_500));
    assert_eq!(parse_datetime("1969-12-31T23:59:59.5Z"), Some(-1_500_000_000));
    assert_eq!(parse_datetime("2016-12-31T23:59:60Z"), Some(1_483_228_799 * 2_000_000_000 + 1_000_000_000));
    assert_eq!(parse_datetime("2021-01-01"), None);
    assert_eq!(parse_datetime("yesterday"), None);
}

#[test]
fn hmac_signatures() {
    assert_eq!(
        get_mac_sha256(&"what do ya want for nothing?".to_string(), &"Jefe".to_string()),
        "5bdcc146bf60754e6a042426089575c75a003f089d2739839dec58b964ec3843"
    );
    assert_eq!(
        get_mac_sha256(
            &"symbol=LTCBTC&side=BUY&type=LIMIT&timeInForce=GTC&quantity=1&price=0.1&recvWindow=5000&timestamp=1499827319559".to_string(),
            &"NhqPtmdSJYdKjVHjA7PZj4Mge3R5YNiP1e3UZjInClVN65XAbvqqM6A7H5fATj0j".to_string()
        ),
        "c8db56825ae71d6d79447849e617115f4a920fa2acdcab2b053c4b2838bd6b71"
    );
    assert_eq!(get_mac_sha256(&String::new(), &String::new()).len(), 64);
}

#[test]
fn assets_get_bitcoin_and_order() {
    let found = vec!["ETH".to_string(), "ADA".to_string(), "XRP".to_string()];
    assert_eq!(possessed_assets(found), vec!["ADA", "BTC", "ETH", "XRP"]);
    let with_btc = vec!["DOT".to_string(), "BTC".to_string()];
    assert_eq!(possessed_assets(with_btc), vec!["BTC", "DOT"]);
    assert_eq!(possessed_assets(vec![]), vec!["BTC"]);
    let mixed = vec!["b".to_string(), "B".to_string(), "BT".to_string(), "BTCB".to_string()];
    assert_eq!(possessed_assets(mixed), vec!["B", "BT", "BTC", "BTCB", "b"]);
}

#[test]
fn escaped_datetime_reads_back() {
    let t: i128 = 3_229_668_734_123_456_789;
    let text = get_uri_escaped_datetime(t);
    assert!(!text.contains(':'));
    assert_eq!(parse_datetime(&text.replace("%3A", ":")), Some(3_229_668_734_000_000_000));
}
