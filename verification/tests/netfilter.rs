use pyruse::netfilter::ban_until_from_timestamp;
use pyruse::netfilter::ipset_ban_args;
use pyruse::netfilter::ipset_unban_args;
use pyruse::netfilter::nft_ban_command;
use pyruse::netfilter::nft_unban_command;
use pyruse::netfilter::reconcile_bans;
use pyruse::netfilter::timestamp_from_ban_until;
use pyruse::netfilter::Ban;

fn ban(ip: &str, nf_set: &str, ban_until: Option<i64>) -> Ban {
    Ban { ip: ip.to_string(), nf_set: nf_set.to_string(), ban_until }
}

fn preloaded() -> Vec<Ban> {
    vec![
        ban("164.52.24.168", "ip Inet4 mail_ban", Some(1614263304)),
        ban("121.66.35.37", "ip Inet4 mail_ban", Some(2614199470)),
        ban("46.105.31.92", "ip Inet4 https_ban", Some(1614180427)),
        ban("59.39.183.34", "ip Inet4 mail_ban", Some(2614201649)),
        ban("51.11.240.49", "ip Inet4 https_ban", None),
    ]
}

#[test]
fn ban_file_is_correctly_filtered_and_new_ban_added_to_file() {
    let now: i64 = 1617864646;
    let (bans, found) = reconcile_bans(preloaded(), "NEW SET", "NEW.IP", None, now);
    let expected = vec![
        ban("121.66.35.37", "ip Inet4 mail_ban", Some(2614199470)),
        ban("59.39.183.34", "ip Inet4 mail_ban", Some(2614201649)),
        ban("51.11.240.49", "ip Inet4 https_ban", None),
        ban("NEW.IP", "NEW SET", None),
    ];
    assert_eq!(false, found);
    assert_eq!(expected, bans);
}

#[test]
fn existing_ban_is_updated_in_file() {
    let now: i64 = 1617864646;
    let (bans, found) = reconcile_bans(
        preloaded(),
        "ip Inet4 mail_ban",
        "121.66.35.37",
        Some(2614199400),
        now,
    );
    let expected = vec![
        ban("59.39.183.34", "ip Inet4 mail_ban", Some(2614201649)),
        ban("51.11.240.49", "ip Inet4 https_ban", None),
        ban("121.66.35.37", "ip Inet4 mail_ban", Some(2614199400)),
    ];
    assert_eq!(true, found);
    assert_eq!(expected, bans);
}

#[test]
fn a_ban_for_the_same_ip_in_another_set_is_kept() {
    let now: i64 = 1000;
    let start = vec![ban("1.2.3.4", "setA", None)];
    let (bans, found) = reconcile_bans(start, "setB", "1.2.3.4", None, now);
    let expected = vec![ban("1.2.3.4", "setA", None), ban("1.2.3.4", "setB", None)];
    assert_eq!(false, found);
    assert_eq!(expected, bans);
}

#[test]
fn zero_timestamp_is_read_as_an_empty_datetime() {
    assert_eq!(None, ban_until_from_timestamp(0));
    assert_eq!(Some(1614263304), ban_until_from_timestamp(1614263304));
}

#[test]
fn empty_timestamp_is_written_as_zero() {
    assert_eq!(0, timestamp_from_ban_until(None));
    assert_eq!(1614263304, timestamp_from_ban_until(Some(1614263304)));
}

#[test]
fn ipset_ban_with_enddate_has_a_timeout() {
    let now: i64 = 1000;
    let args = ipset_ban_args("myset", "10.0.0.1", Some(now + 60), now);
    let expected: Vec<String> = vec![
        "add".to_string(),
        "myset".to_string(),
        "10.0.0.1".to_string(),
        "timeout".to_string(),
        "60".to_string(),
    ];
    assert_eq!(expected, args);
}

#[test]
fn ipset_ban_without_enddate_has_no_timeout() {
    let now: i64 = 1000;
    let args = ipset_ban_args("myset", "10.0.0.1", None, now);
    let expected: Vec<String> = vec![
        "add".to_string(),
        "myset".to_string(),
        "10.0.0.1".to_string(),
    ];
    assert_eq!(expected, args);
}

#[test]
fn ipset_unban_works() {
    let args = ipset_unban_args("myset", "10.0.0.1");
    let expected: Vec<String> = vec![
        "del".to_string(),
        "myset".to_string(),
        "10.0.0.1".to_string(),
    ];
    assert_eq!(expected, args);
}

#[test]
fn nftables_ban_with_enddate_has_a_timeout() {
    let now: i64 = 1000;
    let cmd = nft_ban_command("ip Inet4 mail_ban", "10.0.0.1", Some(now + 60), now);
    assert_eq!("add element ip Inet4 mail_ban {10.0.0.1 timeout 60s}", &cmd);
}

#[test]
fn nftables_ban_without_enddate_has_no_timeout() {
    let now: i64 = 1000;
    let cmd = nft_ban_command("ip Inet4 mail_ban", "10.0.0.1", None, now);
    assert_eq!("add element ip Inet4 mail_ban {10.0.0.1}", &cmd);
}

#[test]
fn nftables_unban_works() {
    let cmd = nft_unban_command("ip Inet4 mail_ban", "10.0.0.1");
    assert_eq!("delete element ip Inet4 mail_ban {10.0.0.1}", &cmd);
}
