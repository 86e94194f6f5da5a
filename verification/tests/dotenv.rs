use easyenv::dotenv::parse_dotenv;
use easyenv::error::EnvError;

#[test]
fn parses_basic_dotenv_files() {
    let entries = parse_dotenv(
        "OPENAI_API_KEY=sk-test\nexport STRIPE_SECRET='abc'\nQUOTED=\"hello\\nworld\"\n",
    )
    .unwrap();
    assert_eq!(entries.len(), 3);
    assert_eq!(entries[1].1, "abc");
    assert_eq!(entries[2].1, "hello\nworld");
}

#[test]
fn strips_comments_from_unquoted_values() {
    let entries = parse_dotenv("FOO=bar # comment\n").unwrap();
    assert_eq!(entries[0].1, "bar");
}

#[test]
fn dotenv_keeps_hashes_inside_words_and_skips_comments() {
    let entries = parse_dotenv("# note\n\n  A = x#y  \r\nB=\"q\\\"t\" trailing\n").unwrap();
    assert_eq!(entries.len(), 2);
    assert_eq!(entries[0].0.as_str(), "A");
    assert_eq!(entries[0].1, "x#y");
    assert_eq!(entries[1].1, "q\"t");
}

#[test]
fn dotenv_faults_name_their_line() {
    assert_eq!(parse_dotenv("A=1\nnot a pair\n").unwrap_err(), EnvError::DotenvMissingEquals(2));
    assert_eq!(parse_dotenv("A=\"open\n").unwrap_err(), EnvError::DotenvUnterminatedDouble(1));
    assert_eq!(parse_dotenv("\n\nA='open\n").unwrap_err(), EnvError::DotenvUnterminatedSingle(3));
    assert_eq!(parse_dotenv("1A=x\n").unwrap_err(), EnvError::KeyBadStart);
}
