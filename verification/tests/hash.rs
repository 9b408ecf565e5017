use rag_search::hash::hash;

#[test]
fn test_use_hash() {
    let hello = hash("hello");
    println!("{}", hello);

    let hellp = hash("hellp");
    println!("{}", hellp);

    let herro = hash("herro");
    println!("{}", herro);
}

#[test]
fn test_smoke() {
    let test_use_hash = "let out smoke test";
    let out = hash(test_use_hash);
    println!("{out}");
}

#[test]
fn test_u8_wrapping() {
    let number: u8 = 255;
    let number: u8 = number.wrapping_add(1);
    assert_eq!(number, 0);
}

#[test]
fn hash_known_values() {
    assert_eq!(hash("hello"), 12316980250028860090);
    assert_eq!(hash("hellp"), 12316981944447430952);
    assert_eq!(hash("herro"), 13964351636257077722);
    assert_eq!(hash("let out smoke test"), 5344284907930586014);
}

#[test]
fn hash_of_empty_text_is_the_mixed_start() {
    assert_eq!(hash(""), 9202387258351522);
}

#[test]
fn hash_reads_utf8_bytes() {
    assert_eq!(hash("a"), 5674731317686004540);
    assert_eq!(hash("\u{e9}"), 10814749424132785542);
}

#[test]
fn hash_separates_one_letter_changes() {
    assert_ne!(hash("hello"), hash("hellp"));
    assert_eq!(hash("same text"), hash("same text"));
}
