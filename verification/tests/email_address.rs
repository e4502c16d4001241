use pyruse::email::EmailAddress;
use pyruse::error::Error;

#[test]
fn valid_plain_email_address_is_accepted() {
    assert_valid("l@d");
}

#[test]
fn email_address_must_have_an_arobase() {
    assert_invalid("l.d");
}

#[test]
fn valid_email_address_in_brackets_is_accepted() {
    assert_valid("<l@d>");
}

#[test]
fn valid_email_address_with_name_is_accepted() {
    assert_valid("Some One <l@d>");
}

#[test]
fn email_address_with_name_must_have_brackets() {
    assert_invalid(r#""Some One" l@d"#);
}

#[test]
fn domain_name_may_end_with_dot() {
    assert_valid("l@d.");
}

#[test]
fn bracketted_domain_name_may_end_with_dot() {
    assert_valid("<l@d.>");
}

#[test]
fn domain_name_may_not_start_with_dot() {
    assert_invalid("l@.d");
}

#[test]
fn domain_name_may_not_contain_consecutive_dots() {
    assert_invalid("l@a..z");
}

#[test]
fn domain_name_cannot_be_empty() {
    assert_invalid("l@");
}

#[test]
fn domain_name_may_contain_alphanumeric_dash_and_dot() {
    assert_valid("l@a-z.A-Z.0-9");
}

#[test]
fn domain_name_may_not_contain_other_ascii_chars() {
    assert_invalid("l@a_z.A_Z.0_9");
}

#[test]
fn domain_name_may_not_contain_other_iso_chars() {
    assert_invalid("l@aàz.AéZ.0î9");
}

#[test]
fn domain_name_may_not_contain_other_utf_chars() {
    assert_invalid("l@a…z.A☺️Z.0⩽9");
}

#[test]
fn domain_part_may_not_end_with_dash() {
    assert_invalid("l@a-z.A-.0-9");
}

#[test]
fn domain_part_may_not_start_with_dash() {
    assert_invalid("l@a-z.-Z.0-9");
}

#[test]
fn tld_may_not_be_numeric() {
    assert_invalid("l@a-z.A-Z.09");
}

#[test]
fn dotted_tld_may_not_be_numeric() {
    assert_invalid("l@a-z.A-Z.09.");
}

#[test]
fn bracketted_tld_may_not_be_numeric() {
    assert_invalid("<l@a-z.A-Z.09>");
}

#[test]
fn bracketted_dotted_tld_may_not_be_numeric() {
    assert_invalid("<l@a-z.A-Z.09.>");
}

#[test]
fn domain_part_before_tld_may_be_numeric() {
    assert_valid("l@1.a-z.42.A-Z.0-9");
}

#[test]
fn local_part_can_contain_anything_between_quotes() {
    assert_valid("\"\t\n\r\\\"« 👍 ‽\\ŷñΩ\"@d");
}

#[test]
fn local_part_can_contain_any_individually_quoted_character() {
    assert_valid("\\\t\\\n\\\r\\\"\\«\\ \\👍\\ \\‽\\\\\\ŷ\\ñ\\Ω@d");
}

#[test]
fn a_trailing_backslash_in_a_quoted_local_part_must_be_quoted() {
    assert_invalid(r#""l\"@d"#);
}

#[test]
fn all_allowed_chars_are_accepted_in_an_unquoted_local_part() {
    assert_valid("!#$%&'*+-/=?^_`.{|}~azAZ09@d");
}

#[test]
fn unquotted_space_is_disallowed_in_local_part() {
    assert_invalid("<l l@d>");
}

#[test]
fn unquotted_quote_is_disallowed_in_local_part() {
    assert_invalid(r#"<l"l@d>"#);
}

#[test]
fn consecutive_dots_are_not_allowed_in_an_unquoted_local_part() {
    assert_invalid("a..z@d");
}

#[test]
fn unquoted_local_part_cannot_start_with_a_dot() {
    assert_invalid(".z@d");
}

#[test]
fn unquoted_local_part_cannot_end_with_a_dot() {
    assert_invalid("a.@d");
}

#[test]
fn unquoted_local_part_may_not_contain_other_ascii_chars() {
    assert_invalid("l\tl@d");
}

#[test]
fn unquoted_local_part_may_not_contain_other_iso_chars() {
    assert_invalid("àéî@d");
}

#[test]
fn unquoted_local_part_may_not_contain_other_utf_chars() {
    assert_invalid("…☺️⩽@d");
}

#[test]
fn local_part_can_start_with_a_quoted_quote() {
    assert_valid("<\\\"l@d>");
}

#[test]
fn local_part_can_start_with_a_quoted_space() {
    assert_valid("<\\ l@d>");
}

fn assert_valid(addr: &str) {
    let checked: String = EmailAddress::try_from(addr.to_string()).unwrap().into_string();
    assert_eq!(addr, &checked);
}

fn assert_invalid(addr: &str) {
    assert_eq!(
        Err(Error { message: format!("Email {} is invalid", addr) }),
        EmailAddress::try_from(addr.to_string())
    );
}
