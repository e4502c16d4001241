use crate::error::Error;
use vstd::prelude::*;
use vstd::string::StrSliceExecFns;
use vstd::utf8::encode_utf8;
use vstd::utf8::encode_scalar;

verus! {

/// What an email notification carries: a subject and, when present, a plain
/// text part and an HTML part.
#[derive(Debug)]
pub struct EmailData {
    pub text: Option<String>,
    pub html: Option<String>,
    pub subject: String,
}

impl EmailData {
    pub fn new(subject: String) -> (r: EmailData)
        ensures
            r.text is None,
            r.html is None,
            r.subject@ == subject@,
    {
        EmailData { text: None, html: None, subject }
    }
}

fn clone_opt_string(o: &Option<String>) -> (r: Option<String>)
    ensures
        match (r, o) {
            (Some(a), Some(b)) => a@ == b@,
            (None, None) => true,
            _ => false,
        },
{
    match o {
        Some(s) => Some(s.clone()),
        None => None,
    }
}

impl Clone for EmailData {
    /// A copy with the same parts.
    fn clone(&self) -> (r: EmailData)
        ensures
            r.subject@ == self.subject@,
            match (r.text, self.text) {
                (Some(a), Some(b)) => a@ == b@,
                (None, None) => true,
                _ => false,
            },
            match (r.html, self.html) {
                (Some(a), Some(b)) => a@ == b@,
                (None, None) => true,
                _ => false,
            },
    {
        EmailData {
            text: clone_opt_string(&self.text),
            html: clone_opt_string(&self.html),
            subject: self.subject.clone(),
        }
    }
}

/// The port a mailer implements; the process-spawning adapter lives outside
/// the library.
pub trait EmailPort {
    fn send(&mut self, email: EmailData) -> Result<(), Error>;
}

pub const MAX_LOCAL_SIZE: i32 = 64;

pub const MAX_DNS_PART_SIZE: i32 = 63;

pub const MAX_HOST_SIZE: i32 = 255;

pub const MAX_EMAIL_SIZE: usize = 254;

/// The scanning positions of the address check, which walks the address
/// from its last character towards its first.
#[derive(PartialEq, Eq, Structural, Clone, Copy, Debug)]
pub enum EmlAddr {
    Name,
    LocalSpaceTest,
    LocalQuoteTest,
    Local,
    Arob,
    Host,
    End,
}

/// The address checker's running state.
pub struct AddrSm {
    pub state: EmlAddr,
    pub all_num_top_dom: bool,
    pub dash_seen_last: bool,
    pub dot_seen_last: bool,
    pub quote_needed: bool,
    pub host_size: int,
    pub dns_part_size: int,
    pub local_size: int,
    pub with_brackets: bool,
    pub in_quotes: bool,
}

/// Either the checker keeps scanning, or it has settled on an answer.
pub enum AddrStep {
    Cont(AddrSm),
    Done(bool),
}

pub open spec fn addr_init() -> AddrSm {
    AddrSm {
        state: EmlAddr::End,
        all_num_top_dom: true,
        dash_seen_last: false,
        dot_seen_last: false,
        quote_needed: false,
        host_size: 0,
        dns_part_size: 0,
        local_size: 0,
        with_brackets: false,
        in_quotes: false,
    }
}

/// One step of the address grammar, on the next character leftward.
pub open spec fn addr_step(m: AddrSm, c: char) -> AddrStep {
    match m.state {
        EmlAddr::Name => {
            if c == ' ' {
                AddrStep::Cont(m)
            } else {
                AddrStep::Done(m.with_brackets)
            }
        },
        EmlAddr::LocalSpaceTest => {
            if c == '\\' {
                AddrStep::Cont(
                    AddrSm {
                        state: EmlAddr::Local,
                        local_size: m.local_size + 2,
                        dot_seen_last: false,
                        ..m
                    },
                )
            } else if m.with_brackets || m.dot_seen_last || m.local_size == 0 || m.local_size
                > MAX_LOCAL_SIZE as int || c != ' ' {
                AddrStep::Done(false)
            } else {
                AddrStep::Cont(AddrSm { state: EmlAddr::Name, ..m })
            }
        },
        EmlAddr::LocalQuoteTest => {
            if c == '\\' {
                AddrStep::Cont(
                    AddrSm {
                        state: EmlAddr::Local,
                        local_size: m.local_size + 2,
                        dot_seen_last: false,
                        ..m
                    },
                )
            } else if !m.in_quotes || m.local_size == 0 || m.local_size > MAX_LOCAL_SIZE as int {
                AddrStep::Done(false)
            } else if m.with_brackets && c != '<' {
                AddrStep::Done(false)
            } else {
                AddrStep::Cont(AddrSm { state: EmlAddr::Name, ..m })
            }
        },
        EmlAddr::Local => {
            if m.quote_needed {
                if c != '\\' {
                    AddrStep::Done(false)
                } else {
                    AddrStep::Cont(
                        AddrSm {
                            quote_needed: false,
                            dot_seen_last: false,
                            local_size: m.local_size + 1,
                            ..m
                        },
                    )
                }
            } else if c == '.' {
                if !m.in_quotes && m.dot_seen_last {
                    AddrStep::Done(false)
                } else {
                    AddrStep::Cont(
                        AddrSm { dot_seen_last: true, local_size: m.local_size + 1, ..m },
                    )
                }
            } else if c == '<' {
                if !m.in_quotes {
                    if !m.with_brackets || m.dot_seen_last || m.local_size == 0 || m.local_size
                        > MAX_LOCAL_SIZE as int {
                        AddrStep::Done(false)
                    } else {
                        AddrStep::Cont(
                            AddrSm {
                                state: EmlAddr::Name,
                                dot_seen_last: false,
                                local_size: m.local_size + 1,
                                ..m
                            },
                        )
                    }
                } else {
                    AddrStep::Cont(
                        AddrSm { dot_seen_last: false, local_size: m.local_size + 1, ..m },
                    )
                }
            } else if c == '\\' {
                if m.local_size == 0 {
                    AddrStep::Cont(
                        AddrSm {
                            quote_needed: true,
                            dot_seen_last: false,
                            local_size: m.local_size + 1,
                            ..m
                        },
                    )
                } else {
                    AddrStep::Cont(
                        AddrSm { dot_seen_last: false, local_size: m.local_size + 1, ..m },
                    )
                }
            } else if c == '@' || c == ',' || c == '[' || c == ']' {
                if !m.in_quotes {
                    AddrStep::Cont(
                        AddrSm {
                            quote_needed: true,
                            dot_seen_last: false,
                            local_size: m.local_size + 1,
                            ..m
                        },
                    )
                } else {
                    AddrStep::Cont(
                        AddrSm { dot_seen_last: false, local_size: m.local_size + 1, ..m },
                    )
                }
            } else if c == '"' {
                AddrStep::Cont(AddrSm { state: EmlAddr::LocalQuoteTest, ..m })
            } else if c == ' ' {
                if !m.in_quotes {
                    AddrStep::Cont(AddrSm { state: EmlAddr::LocalSpaceTest, ..m })
                } else {
                    AddrStep::Cont(
                        AddrSm { dot_seen_last: false, local_size: m.local_size + 1, ..m },
                    )
                }
            } else if '!' <= c && c <= '~' {
                AddrStep::Cont(AddrSm { dot_seen_last: false, local_size: m.local_size + 1, ..m })
            } else {
                if !m.in_quotes {
                    AddrStep::Cont(
                        AddrSm {
                            quote_needed: true,
                            dot_seen_last: false,
                            local_size: m.local_size + 1,
                            ..m
                        },
                    )
                } else {
                    AddrStep::Cont(
                        AddrSm { dot_seen_last: false, local_size: m.local_size + 1, ..m },
                    )
                }
            }
        },
        EmlAddr::Arob => {
            if c == '"' {
                AddrStep::Cont(
                    AddrSm { state: EmlAddr::Local, in_quotes: true, local_size: 0, ..m },
                )
            } else if c == '.' {
                AddrStep::Done(false)
            } else if c == '@' || c == '\\' || c == ',' || c == '[' || c == ']' {
                AddrStep::Cont(
                    AddrSm {
                        state: EmlAddr::Local,
                        quote_needed: true,
                        local_size: m.local_size + 1,
                        ..m
                    },
                )
            } else if '!' <= c && c <= '~' {
                AddrStep::Cont(
                    AddrSm { state: EmlAddr::Local, local_size: m.local_size + 1, ..m },
                )
            } else {
                AddrStep::Cont(
                    AddrSm {
                        state: EmlAddr::Local,
                        quote_needed: true,
                        local_size: m.local_size + 1,
                        ..m
                    },
                )
            }
        },
        EmlAddr::Host => {
            if c == '@' {
                if m.dash_seen_last || m.all_num_top_dom || m.dns_part_size == 0
                    || m.dns_part_size > MAX_DNS_PART_SIZE as int || m.host_size
                    > MAX_HOST_SIZE as int {
                    AddrStep::Done(false)
                } else {
                    AddrStep::Cont(
                        AddrSm {
                            state: EmlAddr::Arob,
                            dash_seen_last: false,
                            dns_part_size: m.dns_part_size + 1,
                            host_size: m.host_size + 1,
                            ..m
                        },
                    )
                }
            } else if c == '.' {
                if m.dash_seen_last || (m.host_size > 0 && (m.all_num_top_dom || m.dns_part_size
                    == 0)) || m.dns_part_size > MAX_DNS_PART_SIZE as int {
                    AddrStep::Done(false)
                } else {
                    AddrStep::Cont(
                        AddrSm {
                            dash_seen_last: false,
                            dns_part_size: 0,
                            host_size: m.host_size + 1,
                            ..m
                        },
                    )
                }
            } else if '0' <= c && c <= '9' {
                AddrStep::Cont(
                    AddrSm {
                        dash_seen_last: false,
                        dns_part_size: m.dns_part_size + 1,
                        host_size: m.host_size + 1,
                        ..m
                    },
                )
            } else if c == '-' {
                if m.dns_part_size == 0 {
                    AddrStep::Done(false)
                } else {
                    AddrStep::Cont(
                        AddrSm {
                            all_num_top_dom: false,
                            dash_seen_last: true,
                            dns_part_size: m.dns_part_size + 1,
                            host_size: m.host_size + 1,
                            ..m
                        },
                    )
                }
            } else if ('a' <= c && c <= 'z') || ('A' <= c && c <= 'Z') {
                AddrStep::Cont(
                    AddrSm {
                        all_num_top_dom: false,
                        dash_seen_last: false,
                        dns_part_size: m.dns_part_size + 1,
                        host_size: m.host_size + 1,
                        ..m
                    },
                )
            } else {
                AddrStep::Done(false)
            }
        },
        EmlAddr::End => {
            if c == '>' {
                AddrStep::Cont(AddrSm { state: EmlAddr::Host, with_brackets: true, ..m })
            } else if '0' <= c && c <= '9' {
                AddrStep::Cont(
                    AddrSm { state: EmlAddr::Host, host_size: 1, dns_part_size: 1, ..m },
                )
            } else if ('a' <= c && c <= 'z') || ('A' <= c && c <= 'Z') {
                AddrStep::Cont(
                    AddrSm {
                        state: EmlAddr::Host,
                        all_num_top_dom: false,
                        host_size: 1,
                        dns_part_size: 1,
                        ..m
                    },
                )
            } else if c == '.' {
                AddrStep::Cont(AddrSm { state: EmlAddr::Host, ..m })
            } else {
                AddrStep::Done(false)
            }
        },
    }
}

/// The checker's verdict or state after reading the characters from the end
/// of the address down to position `i`.
pub open spec fn addr_fold(s: Seq<char>, i: int) -> AddrStep
    decreases s.len() - i,
    when 0 <= i <= s.len()
{
    if i == s.len() {
        AddrStep::Cont(addr_init())
    } else {
        match addr_fold(s, i + 1) {
            AddrStep::Done(b) => AddrStep::Done(b),
            AddrStep::Cont(m) => addr_step(m, s[i]),
        }
    }
}

/// Once the checker has settled on an answer, the remaining characters do
/// not change it.
pub proof fn lemma_fold_done(s: Seq<char>, i: int, j: int)
    requires
        0 <= j <= i <= s.len(),
        addr_fold(s, i) is Done,
    ensures
        addr_fold(s, j) == addr_fold(s, i),
    decreases i - j,
{
    if j < i {
        lemma_fold_done(s, i, j + 1);
    }
}

/// The verdict when every character has been read without an early answer.
pub open spec fn addr_accept(m: AddrSm) -> bool {
    let good_size = m.local_size > 0 && m.local_size <= MAX_LOCAL_SIZE as int;
    match m.state {
        EmlAddr::Name => true,
        EmlAddr::LocalSpaceTest => !m.dot_seen_last && good_size,
        EmlAddr::LocalQuoteTest => !m.with_brackets && m.in_quotes && good_size,
        EmlAddr::Local => !m.in_quotes && !m.with_brackets && !m.dot_seen_last && good_size,
        _ => false,
    }
}

/// Which character sequences are accepted as email addresses: the size cap
/// on the UTF-8 form, then the right-to-left grammar.
pub open spec fn address_valid(s: Seq<char>) -> bool {
    if encode_utf8(s).len() > MAX_EMAIL_SIZE as int {
        false
    } else {
        match addr_fold(s, 0) {
            AddrStep::Done(b) => b,
            AddrStep::Cont(m) => addr_accept(m),
        }
    }
}

/// A character never takes fewer than one byte of UTF-8.
proof fn lemma_utf8_len(chars: Seq<char>)
    ensures
        encode_utf8(chars).len() >= chars.len(),
    decreases chars.len(),
{
    if chars.len() > 0 {
        lemma_utf8_len(chars.drop_first());
        assert(encode_scalar(chars[0] as u32).len() >= 1);
    }
}

/// Checks an address against RFC 3696 with its errata, walking the string
/// from its end: an optional display name before a bracketed form, a local
/// part that may be quoted or escaped, and a host of letter/digit/dash
/// labels whose top label is not all digits. IP-address hosts are not
/// accepted, and non-ASCII is allowed only where quoting allows it.
pub fn is_address_valid(addr: &str) -> (r: bool)
    ensures
        r == address_valid(addr@),
{
    let ghost s = addr@;
    let byte_len: usize = addr.as_bytes().len();
    if byte_len > MAX_EMAIL_SIZE {
        return false;
    }
    proof {
        lemma_utf8_len(s);
    }
    let n: usize = addr.unicode_len();
    let mut all_num_top_dom: bool = true;
    let mut dash_seen_last: bool = false;
    let mut dot_seen_last: bool = false;
    let mut quote_needed: bool = false;
    let mut host_size: i32 = 0;
    let mut dns_part_size: i32 = 0;
    let mut local_size: i32 = 0;
    let mut with_brackets: bool = false;
    let mut in_quotes: bool = false;
    let mut state: EmlAddr = EmlAddr::End;
    let mut i: usize = n;
    while i > 0
        invariant
            n == s.len(),
            addr@ == s,
            n <= MAX_EMAIL_SIZE,
            encode_utf8(s).len() <= MAX_EMAIL_SIZE as int,
            i <= n,
            -1 <= host_size,
            -1 <= dns_part_size,
            -1 <= local_size,
            host_size <= 2 * (n - i) + 2,
            dns_part_size <= 2 * (n - i) + 2,
            local_size <= 2 * (n - i) + 2,
            addr_fold(s, i as int) == AddrStep::Cont(
                AddrSm {
                    state,
                    all_num_top_dom,
                    dash_seen_last,
                    dot_seen_last,
                    quote_needed,
                    host_size: host_size as int,
                    dns_part_size: dns_part_size as int,
                    local_size: local_size as int,
                    with_brackets,
                    in_quotes,
                },
            ),
        decreases i,
    {
        let ghost m = AddrSm {
            state,
            all_num_top_dom,
            dash_seen_last,
            dot_seen_last,
            quote_needed,
            host_size: host_size as int,
            dns_part_size: dns_part_size as int,
            local_size: local_size as int,
            with_brackets,
            in_quotes,
        };
        let c: char = addr.get_char(i - 1);
        proof {
            assert(addr_fold(s, i - 1) == addr_step(m, s[i - 1]));
        }
        match state {
            EmlAddr::Name => {
                if c != ' ' {
                    proof {
                        lemma_fold_done(s, i - 1, 0);
                    }
                    return with_brackets;
                }
            },
            EmlAddr::LocalSpaceTest => {
                if c == '\\' {
                    local_size = local_size + 2;
                    dot_seen_last = false;
                    state = EmlAddr::Local;
                } else if with_brackets || dot_seen_last || local_size == 0 || local_size
                    > MAX_LOCAL_SIZE || c != ' ' {
                    proof {
                        lemma_fold_done(s, i - 1, 0);
                    }
                    return false;
                } else {
                    state = EmlAddr::Name;
                }
            },
            EmlAddr::LocalQuoteTest => {
                if c == '\\' {
                    local_size = local_size + 2;
                    dot_seen_last = false;
                    state = EmlAddr::Local;
                } else if !in_quotes || local_size == 0 || local_size > MAX_LOCAL_SIZE {
                    proof {
                        lemma_fold_done(s, i - 1, 0);
                    }
                    return false;
                } else if with_brackets && c != '<' {
                    proof {
                        lemma_fold_done(s, i - 1, 0);
                    }
                    return false;
                } else {
                    state = EmlAddr::Name;
                }
            },
            EmlAddr::Local => {
                if quote_needed {
                    if c != '\\' {
                        proof {
                            lemma_fold_done(s, i - 1, 0);
                        }
                        return false;
                    }
                    quote_needed = false;
                    dot_seen_last = false;
                    local_size = local_size + 1;
                } else if c == '.' {
                    if !in_quotes && dot_seen_last {
                        proof {
                            lemma_fold_done(s, i - 1, 0);
                        }
                        return false;
                    }
                    dot_seen_last = true;
                    local_size = local_size + 1;
                } else if c == '<' {
                    if !in_quotes {
                        if !with_brackets || dot_seen_last || local_size == 0 || local_size
                            > MAX_LOCAL_SIZE {
                            proof {
                                lemma_fold_done(s, i - 1, 0);
                            }
                            return false;
                        }
                        state = EmlAddr::Name;
                    }
                    dot_seen_last = false;
                    local_size = local_size + 1;
                } else if c == '\\' {
                    if local_size == 0 {
                        quote_needed = true;
                    }
                    dot_seen_last = false;
                    local_size = local_size + 1;
                } else if c == '@' || c == ',' || c == '[' || c == ']' {
                    if !in_quotes {
                        quote_needed = true;
                    }
                    dot_seen_last = false;
                    local_size = local_size + 1;
                } else if c == '"' {
                    state = EmlAddr::LocalQuoteTest;
                } else if c == ' ' {
                    if !in_quotes {
                        state = EmlAddr::LocalSpaceTest;
                    } else {
                        dot_seen_last = false;
                        local_size = local_size + 1;
                    }
                } else if '!' <= c && c <= '~' {
                    dot_seen_last = false;
                    local_size = local_size + 1;
                } else {
                    if !in_quotes {
                        quote_needed = true;
                    }
                    dot_seen_last = false;
                    local_size = local_size + 1;
                }
            },
            EmlAddr::Arob => {
                if c == '"' {
                    in_quotes = true;
                    local_size = 0;
                    state = EmlAddr::Local;
                } else if c == '.' {
                    proof {
                        lemma_fold_done(s, i - 1, 0);
                    }
                    return false;
                } else if c == '@' || c == '\\' || c == ',' || c == '[' || c == ']' {
                    quote_needed = true;
                    local_size = local_size + 1;
                    state = EmlAddr::Local;
                } else if '!' <= c && c <= '~' {
                    local_size = local_size + 1;
                    state = EmlAddr::Local;
                } else {
                    quote_needed = true;
                    local_size = local_size + 1;
                    state = EmlAddr::Local;
                }
            },
            EmlAddr::Host => {
                if c == '@' {
                    if dash_seen_last || all_num_top_dom || dns_part_size == 0 || dns_part_size
                        > MAX_DNS_PART_SIZE || host_size > MAX_HOST_SIZE {
                        proof {
                            lemma_fold_done(s, i - 1, 0);
                        }
                        return false;
                    }
                    state = EmlAddr::Arob;
                    dash_seen_last = false;
                    dns_part_size = dns_part_size + 1;
                    host_size = host_size + 1;
                } else if c == '.' {
                    if dash_seen_last || (host_size > 0 && (all_num_top_dom || dns_part_size == 0))
                        || dns_part_size > MAX_DNS_PART_SIZE {
                        proof {
                            lemma_fold_done(s, i - 1, 0);
                        }
                        return false;
                    }
                    dash_seen_last = false;
                    dns_part_size = 0;
                    host_size = host_size + 1;
                } else if '0' <= c && c <= '9' {
                    dash_seen_last = false;
                    dns_part_size = dns_part_size + 1;
                    host_size = host_size + 1;
                } else if c == '-' {
                    if dns_part_size == 0 {
                        proof {
                            lemma_fold_done(s, i - 1, 0);
                        }
                        return false;
                    }
                    all_num_top_dom = false;
                    dash_seen_last = true;
                    dns_part_size = dns_part_size + 1;
                    host_size = host_size + 1;
                } else if ('a' <= c && c <= 'z') || ('A' <= c && c <= 'Z') {
                    all_num_top_dom = false;
                    dash_seen_last = false;
                    dns_part_size = dns_part_size + 1;
                    host_size = host_size + 1;
                } else {
                    proof {
                        lemma_fold_done(s, i - 1, 0);
                    }
                    return false;
                }
            },
            EmlAddr::End => {
                if c == '>' {
                    with_brackets = true;
                    state = EmlAddr::Host;
                } else if '0' <= c && c <= '9' {
                    host_size = 1;
                    dns_part_size = 1;
                    state = EmlAddr::Host;
                } else if ('a' <= c && c <= 'z') || ('A' <= c && c <= 'Z') {
                    all_num_top_dom = false;
                    host_size = 1;
                    dns_part_size = 1;
                    state = EmlAddr::Host;
                } else if c == '.' {
                    state = EmlAddr::Host;
                } else {
                    proof {
                        lemma_fold_done(s, i - 1, 0);
                    }
                    return false;
                }
            },
        }
        i = i - 1;
    }
    let good_size: bool = local_size > 0 && local_size <= MAX_LOCAL_SIZE;
    match state {
        EmlAddr::Name => true,
        EmlAddr::LocalSpaceTest => !dot_seen_last && good_size,
        EmlAddr::LocalQuoteTest => !with_brackets && in_quotes && good_size,
        EmlAddr::Local => !in_quotes && !with_brackets && !dot_seen_last && good_size,
        _ => false,
    }
}

/// A checked email address: the text is kept only when the check accepts
/// it.
#[derive(Debug, PartialEq, Eq)]
pub struct EmailAddress {
    as_string: String,
}

impl EmailAddress {
    /// Accepts the text as an address, or reports why not.
    pub fn try_from(as_string: String) -> (r: Result<EmailAddress, Error>)
        ensures
            match r {
                Ok(a) => address_valid(as_string@) && a@ == as_string@,
                Err(e) => !address_valid(as_string@) && e.message@ == "Email "@ + as_string@
                    + " is invalid"@,
            },
    {
        if is_address_valid(as_string.as_str()) {
            Ok(EmailAddress { as_string })
        } else {
            let mut msg: String = String::from_str("Email ");
            msg.append(as_string.as_str());
            msg.append(" is invalid");
            Err(Error::new(msg))
        }
    }

    /// The address text.
    pub fn into_string(self) -> (r: String)
        ensures
            r@ == self@,
    {
        self.as_string
    }

    /// The address text, borrowed.
    pub fn as_str(&self) -> (r: &str)
        ensures
            r@ == self@,
    {
        self.as_string.as_str()
    }
}

impl View for EmailAddress {
    type V = Seq<char>;

    closed spec fn view(&self) -> Seq<char> {
        self.as_string@
    }
}

impl Clone for EmailAddress {
    /// A copy carrying the same address.
    fn clone(&self) -> (r: EmailAddress)
        ensures
            r@ == self@,
    {
        EmailAddress { as_string: self.as_string.clone() }
    }
}

} // verus!
