use vstd::prelude::*;
use vstd::string::*;
use vstd::utf8::encode_utf8;
use crate::cycle::stores_distinct;

verus! {

/// What is wrong with the watcher's configuration; found before polling
/// starts, and fatal.
#[derive(Debug, PartialEq, Eq, Structural, Clone, Copy)]
pub enum ConfigError {
    /// No destination channel was given.
    MissingChannelId,
    /// The channel id is not a decimal number that fits in 64 bits.
    InvalidChannelId,
    /// The channel id is zero, which names no channel.
    ZeroChannelId,
    /// A store code is listed twice.
    DuplicateStore,
    /// A request header's name is not a valid header name.
    InvalidHeaderName,
    /// A request header's value holds a byte that headers cannot carry.
    InvalidHeaderValue,
}

/// The address that is queried for the free timeslots of one store.
pub open spec fn url_of(code: Seq<char>) -> Seq<char> {
    "https://termine.fielmann.de/api/v3/times/001-"@ + code + "/free/CL_CF/next"@
}

/// Builds the query address of a store.
pub fn request_url(code: &String) -> (r: String)
    ensures
        r@ == url_of(code@),
{
    let mut r = String::from_str("https://termine.fielmann.de/api/v3/times/001-");
    r.append(code.as_str());
    r.append("/free/CL_CF/next");
    r
}

/// The stores watched by default, in the order they are queried.
pub fn default_stores() -> (r: Vec<String>)
    ensures
        r@.len() == 2,
        r@[0]@ == "0885"@,
        r@[1]@ == "0103"@,
        stores_distinct(r@),
{
    let mut r: Vec<String> = Vec::new();
    r.push(String::from_str("0885"));
    r.push(String::from_str("0103"));
    proof {
        reveal_strlit("0885");
        reveal_strlit("0103");
        assert(r@[0]@[1] != r@[1]@[1]);
    }
    r
}

/// Checks that no store code is listed twice.
pub fn check_stores(stores: &Vec<String>) -> (r: Result<(), ConfigError>)
    ensures
        r is Ok <==> stores_distinct(stores@),
        r matches Err(e) ==> e == ConfigError::DuplicateStore,
{
    let n = stores.len();
    let mut i: usize = 0;
    while i < n
        invariant
            n == stores@.len(),
            0 <= i <= n,
            forall|a: int, b: int|
                0 <= a < i && 0 <= b < n && a != b ==> #[trigger] stores@[a]@ != #[trigger] stores@[b]@,
        decreases n - i,
    {
        let mut j: usize = 0;
        while j < n
            invariant
                n == stores@.len(),
                0 <= i < n,
                0 <= j <= n,
                forall|a: int, b: int|
                    0 <= a < i && 0 <= b < n && a != b ==> #[trigger] stores@[a]@
                        != #[trigger] stores@[b]@,
                forall|b: int| 0 <= b < j && b != i ==> stores@[i as int]@ != #[trigger] stores@[b]@,
            decreases n - j,
        {
            if j != i && stores[i] == stores[j] {
                return Err(ConfigError::DuplicateStore);
            }
            j = j + 1;
        }
        i = i + 1;
    }
    Ok(())
}

/// The character is an ASCII decimal digit.
pub open spec fn is_digit(c: char) -> bool {
    '0' <= c && c <= '9'
}

/// The number written by a string of decimal digits.
pub open spec fn digits_value(s: Seq<char>) -> int
    decreases s.len(),
{
    if s.len() == 0 {
        0
    } else {
        digits_value(s.drop_last()) * 10 + (s.last() as int - '0' as int)
    }
}

/// The digits of an unsigned decimal: the text without one optional leading
/// plus sign.
pub open spec fn unsigned_digits(s: Seq<char>) -> Seq<char> {
    if s.len() > 0 && s[0] == '+' {
        s.drop_first()
    } else {
        s
    }
}

/// The text reads as an unsigned decimal that fits in 64 bits.
pub open spec fn is_u64_decimal(s: Seq<char>) -> bool {
    let d = unsigned_digits(s);
    &&& d.len() > 0
    &&& forall|i: int| 0 <= i < d.len() ==> is_digit(#[trigger] d[i])
    &&& digits_value(d) <= u64::MAX
}

proof fn lemma_digits_value_nonneg(s: Seq<char>)
    requires
        forall|i: int| 0 <= i < s.len() ==> is_digit(#[trigger] s[i]),
    ensures
        digits_value(s) >= 0,
    decreases s.len(),
{
    if s.len() > 0 {
        let t = s.drop_last();
        assert forall|i: int| 0 <= i < t.len() implies is_digit(#[trigger] t[i]) by {
            assert(t[i] == s[i]);
        }
        lemma_digits_value_nonneg(t);
    }
}

proof fn lemma_digits_value_grows(s: Seq<char>, k: int)
    requires
        0 <= k < s.len(),
        forall|i: int| 0 <= i < s.len() ==> is_digit(#[trigger] s[i]),
    ensures
        digits_value(s.subrange(0, k)) <= digits_value(s),
    decreases s.len(),
{
    let t = s.drop_last();
    assert forall|i: int| 0 <= i < t.len() implies is_digit(#[trigger] t[i]) by {
        assert(t[i] == s[i]);
    }
    lemma_digits_value_nonneg(t);
    if k < s.len() - 1 {
        lemma_digits_value_grows(t, k);
        assert(t.subrange(0, k) =~= s.subrange(0, k));
    } else {
        assert(t =~= s.subrange(0, k));
    }
    assert(digits_value(t) * 10 >= digits_value(t)) by (nonlinear_arith)
        requires
            digits_value(t) >= 0,
    ;
}

/// Reads the destination channel id, written in decimal as `u64`'s own
/// parser takes it. Zero names no channel and is refused.
pub fn parse_channel_id(s: &str) -> (r: Result<u64, ConfigError>)
    ensures
        is_u64_decimal(s@) && digits_value(unsigned_digits(s@)) != 0 <==> r is Ok,
        r matches Ok(v) ==> v as int == digits_value(unsigned_digits(s@)),
        !is_u64_decimal(s@) <==> r == Err::<u64, ConfigError>(ConfigError::InvalidChannelId),
        is_u64_decimal(s@) && digits_value(unsigned_digits(s@)) == 0 <==> r == Err::<u64, ConfigError>(
            ConfigError::ZeroChannelId,
        ),
{
    let n = s.unicode_len();
    let mut i: usize = 0;
    if n > 0 && s.get_char(0) == '+' {
        i = 1;
    }
    let start = i;
    let ghost d = unsigned_digits(s@);
    assert(d =~= s@.subrange(start as int, n as int));
    if start == n {
        return Err(ConfigError::InvalidChannelId);
    }
    let mut v: u64 = 0;
    while i < n
        invariant
            n == s@.len(),
            start <= i <= n,
            start < n,
            d == s@.subrange(start as int, n as int),
            d == unsigned_digits(s@),
            forall|k: int| 0 <= k < i - start ==> is_digit(#[trigger] d[k]),
            v as int == digits_value(d.subrange(0, i - start)),
        decreases n - i,
    {
        let c = s.get_char(i);
        if c < '0' || c > '9' {
            assert(d[i - start] == c);
            assert(!is_digit(d[i - start]));
            assert(!is_u64_decimal(s@));
            return Err(ConfigError::InvalidChannelId);
        }
        let digit = (c as u32 - '0' as u32) as u64;
        let ghost next = d.subrange(0, i - start + 1);
        proof {
            assert(next.drop_last() =~= d.subrange(0, i - start));
            assert(next.last() == c);
        }
        if v > (u64::MAX - digit) / 10 {
            proof {
                assert(digits_value(next) > u64::MAX) by (nonlinear_arith)
                    requires
                        v > (u64::MAX - digit) / 10,
                        digits_value(next) == v * 10 + digit,
                        digit <= 9,
                ;
                if is_u64_decimal(s@) {
                    if i - start + 1 < d.len() {
                        lemma_digits_value_grows(d, i - start + 1);
                    } else {
                        assert(next =~= d);
                    }
                }
            }
            return Err(ConfigError::InvalidChannelId);
        }
        assert(v * 10 + digit <= u64::MAX) by (nonlinear_arith)
            requires
                v <= (u64::MAX - digit) / 10,
                digit <= 9,
        ;
        v = v * 10 + digit;
        i = i + 1;
    }
    assert(d.subrange(0, n - start) =~= d);
    if v == 0 {
        Err(ConfigError::ZeroChannelId)
    } else {
        Ok(v)
    }
}

/// The request settings sent with every query: the client identity and the
/// fixed headers of one browser session at the source.
pub struct SourceConfig {
    pub user_agent: String,
    pub headers: Vec<(String, String)>,
}

/// A header as a pair of texts.
pub open spec fn header_view(h: (String, String)) -> (Seq<char>, Seq<char>) {
    (h.0@, h.1@)
}

/// Adds one header, written with name and value characters only, to the list.
fn push_header(headers: &mut Vec<(String, String)>, name: &str, value: &str)
    requires
        headers_ok(old(headers)@),
        1 <= name@.len() <= 65535,
        name_chars_from(name@, 0),
        value_chars_from(value@, 0),
    ensures
        headers_ok(final(headers)@),
        final(headers)@.len() == old(headers)@.len() + 1,
        forall|i: int| 0 <= i < old(headers)@.len() ==> final(headers)@[i] == old(headers)@[i],
        header_view(final(headers)@.last()) == (name@, value@),
{
    proof {
        lemma_plain_header(name@, value@);
    }
    headers.push((String::from_str(name), String::from_str(value)));
    proof {
        let hs = headers@;
        assert forall|i: int| 0 <= i < hs.len() implies header_ok(#[trigger] hs[i]) by {
            if i < hs.len() - 1 {
                assert(hs[i] == old(headers)@[i]);
            }
        }
    }
}

impl SourceConfig {
    /// The settings of the browser session that the source expects.
    pub fn standard() -> (r: SourceConfig)
        ensures
            headers_ok(r.headers@),
            r.user_agent@ == "Mozilla/5.0 (X11; Linux x86_64; rv:128.0) Gecko/20100101 Firefox/128.0"@,
            r.headers@.map_values(|h: (String, String)| header_view(h)) == seq![
                ("Accept"@, "application/json, text/plain, */*"@),
                ("Accept-Language"@, "en-US,en;q=0.5"@),
                ("Accept-Encoding"@, "gzip, deflate, br, zstd"@),
                ("DNT"@, "1"@),
                ("Connection"@, "keep-alive"@),
                ("Referer"@, "https://termine.fielmann.de/find-branch?service=CL_CF"@),
                ("Cookie"@, SESSION_COOKIE@),
                ("Sec-Fetch-Dest"@, "empty"@),
                ("Sec-Fetch-Mode"@, "cors"@),
                ("Sec-Fetch-Site"@, "same-origin"@),
                ("Sec-GPC"@, "1"@),
                ("TE"@, "trailers"@),
            ],
    {
        let mut h: Vec<(String, String)> = Vec::new();
        proof {
            reveal_with_fuel(name_chars_from, 20);
            reveal_with_fuel(value_chars_from, 60);
            reveal_strlit("Accept");
            reveal_strlit("application/json, text/plain, */*");
            reveal_strlit("Accept-Language");
            reveal_strlit("en-US,en;q=0.5");
            reveal_strlit("Accept-Encoding");
            reveal_strlit("gzip, deflate, br, zstd");
            reveal_strlit("DNT");
            reveal_strlit("1");
            reveal_strlit("Connection");
            reveal_strlit("keep-alive");
            reveal_strlit("Referer");
            reveal_strlit("https://termine.fielmann.de/find-branch?service=CL_CF");
            reveal_strlit("Sec-Fetch-Dest");
            reveal_strlit("empty");
            reveal_strlit("Sec-Fetch-Mode");
            reveal_strlit("cors");
            reveal_strlit("Sec-Fetch-Site");
            reveal_strlit("same-origin");
            reveal_strlit("Sec-GPC");
            reveal_strlit("TE");
            reveal_strlit("trailers");
        }
        push_header(&mut h, "Accept", "application/json, text/plain, */*");
        push_header(&mut h, "Accept-Language", "en-US,en;q=0.5");
        push_header(&mut h, "Accept-Encoding", "gzip, deflate, br, zstd");
        push_header(&mut h, "DNT", "1");
        push_header(&mut h, "Connection", "keep-alive");
        push_header(&mut h, "Referer", "https://termine.fielmann.de/find-branch?service=CL_CF");
        proof {
            lemma_session_cookie_plain();
            reveal_strlit("Cookie");
            reveal_with_fuel(name_chars_from, 20);
        }
        push_header(&mut h, "Cookie", SESSION_COOKIE);
        push_header(&mut h, "Sec-Fetch-Dest", "empty");
        push_header(&mut h, "Sec-Fetch-Mode", "cors");
        push_header(&mut h, "Sec-Fetch-Site", "same-origin");
        push_header(&mut h, "Sec-GPC", "1");
        push_header(&mut h, "TE", "trailers");
        let r = SourceConfig {
            user_agent: String::from_str(
                "Mozilla/5.0 (X11; Linux x86_64; rv:128.0) Gecko/20100101 Firefox/128.0",
            ),
            headers: h,
        };
        assert(r.headers@.map_values(|h: (String, String)| header_view(h)) =~= seq![
            ("Accept"@, "application/json, text/plain, */*"@),
            ("Accept-Language"@, "en-US,en;q=0.5"@),
            ("Accept-Encoding"@, "gzip, deflate, br, zstd"@),
            ("DNT"@, "1"@),
            ("Connection"@, "keep-alive"@),
            ("Referer"@, "https://termine.fielmann.de/find-branch?service=CL_CF"@),
            ("Cookie"@, SESSION_COOKIE@),
            ("Sec-Fetch-Dest"@, "empty"@),
            ("Sec-Fetch-Mode"@, "cors"@),
            ("Sec-Fetch-Site"@, "same-origin"@),
            ("Sec-GPC"@, "1"@),
            ("TE"@, "trailers"@),
        ]);
        r
    }
}

/// The consent cookie holds value characters only.
proof fn lemma_session_cookie_plain()
    ensures
        value_chars_from(SESSION_COOKIE@, 0),
{
    reveal_with_fuel(value_chars_from, 60);
    reveal_strlit("OptanonConsent=isGpcEnabled=0&datestamp=Fri+Aug+02+2024+22%3A57%3A12+GMT%2B0200+(Central+European+Summer+Time)&version=202401.1.0&browserGpcFlag=1&isIABGlobal=false&hosts=&genVendors=&consentId=682341bf-8f7d-41fa-9d4e-ee1d7ffae4dd&interactionCount=1&landingPath=NotLandingPage&groups=C0001%3A1%2CC0002%3A1%2CC0004%3A1;");
    let c = "OptanonConsent=isGpcEnabled=0&datestamp=Fri+Aug+02+2024+22%3A57%3A12+GMT%2B0200+(Central+European+Summer+Time)&version=202401.1.0&browserGpcFlag=1&isIABGlobal=false&hosts=&genVendors=&consentId=682341bf-8f7d-41fa-9d4e-ee1d7ffae4dd&interactionCount=1&landingPath=NotLandingPage&groups=C0001%3A1%2CC0002%3A1%2CC0004%3A1;"@;
    assert(value_chars_from(c, 300));
    assert(value_chars_from(c, 250));
    assert(value_chars_from(c, 200));
    assert(value_chars_from(c, 150));
    assert(value_chars_from(c, 100));
    assert(value_chars_from(c, 50));
    assert(value_chars_from(c, 0));
    assert(SESSION_COOKIE@ == c);
}

/// The consent cookie of the session the source expects.
pub const SESSION_COOKIE: &'static str = "OptanonConsent=isGpcEnabled=0&datestamp=Fri+Aug+02+2024+22%3A57%3A12+GMT%2B0200+(Central+European+Summer+Time)&version=202401.1.0&browserGpcFlag=1&isIABGlobal=false&hosts=&genVendors=&consentId=682341bf-8f7d-41fa-9d4e-ee1d7ffae4dd&interactionCount=1&landingPath=NotLandingPage&groups=C0001%3A1%2CC0002%3A1%2CC0004%3A1;";

} // verus!

verus! {

#[verifier::external_type_specification]
#[verifier::external_body]
pub struct ExChannelId(poise::serenity_prelude::ChannelId);

/// The id that a channel handle wraps.
pub uninterp spec fn channel_number(c: poise::serenity_prelude::ChannelId) -> u64;

/// Relies on serenity's `ChannelId::new`, which wraps a non-zero id (read
/// back by `ChannelId::get`) and panics on zero.
pub assume_specification[ poise::serenity_prelude::ChannelId::new ](id: u64) -> (r: poise::serenity_prelude::ChannelId)
    requires
        id != 0,
    ensures
        channel_number(r) == id,
;

/// Reads the destination channel from its decimal text.
pub fn channel_from_text(s: &str) -> (r: Result<poise::serenity_prelude::ChannelId, ConfigError>)
    ensures
        r is Ok <==> is_u64_decimal(s@) && digits_value(unsigned_digits(s@)) != 0,
        r matches Ok(c) ==> channel_number(c) as int == digits_value(unsigned_digits(s@)),
        !is_u64_decimal(s@) ==> r matches Err(ConfigError::InvalidChannelId),
        is_u64_decimal(s@) && digits_value(unsigned_digits(s@)) == 0 ==> r matches Err(
            ConfigError::ZeroChannelId,
        ),
{
    match parse_channel_id(s) {
        Ok(id) => Ok(poise::serenity_prelude::ChannelId::new(id)),
        Err(e) => Err(e),
    }
}

} // verus!

verus! {

#[verifier::external_type_specification]
#[verifier::external_body]
pub struct ExHeaderName(reqwest::header::HeaderName);

#[verifier::external_type_specification]
#[verifier::external_body]
pub struct ExHeaderValue(reqwest::header::HeaderValue);

#[verifier::external_type_specification]
#[verifier::external_body]
pub struct ExInvalidHeaderName(reqwest::header::InvalidHeaderName);

#[verifier::external_type_specification]
#[verifier::external_body]
pub struct ExInvalidHeaderValue(reqwest::header::InvalidHeaderValue);

/// A byte that a header value may hold: a tab, or any byte from 32 on but 127.
pub open spec fn header_value_byte(b: u8) -> bool {
    (b >= 32 && b != 127) || b == 9
}

/// Every byte of the text's UTF-8 encoding may stand in a header value.
pub open spec fn header_value_ok(s: Seq<char>) -> bool {
    forall|i: int|
        0 <= i < encode_utf8(s).len() ==> header_value_byte(#[trigger] encode_utf8(s)[i])
}

/// Relies on `HeaderValue::from_str` of the http crate (re-exported by
/// reqwest): it refuses a text exactly when one of its bytes is below 32 and
/// not a tab, or is 127.
pub assume_specification[ reqwest::header::HeaderValue::from_str ](src: &str) -> (r: Result<
    reqwest::header::HeaderValue,
    reqwest::header::InvalidHeaderValue,
>)
    ensures
        r is Ok <==> header_value_ok(src@),
;

/// A byte that may stand in a header name: an ASCII letter or digit, or one
/// of `! # $ % & ' * + - . ^ _ ` | ~`.
pub open spec fn token_byte(b: u8) -> bool {
    ||| 97 <= b <= 122
    ||| 65 <= b <= 90
    ||| 48 <= b <= 57
    ||| b == 33 || b == 35 || b == 36 || b == 37 || b == 38 || b == 39
    ||| b == 42 || b == 43 || b == 45 || b == 46
    ||| b == 94 || b == 95 || b == 96 || b == 124 || b == 126
}

/// The bytes form a header name: from 1 to 65535 token bytes.
pub open spec fn header_name_ok(b: Seq<u8>) -> bool {
    &&& 1 <= b.len() <= 65535
    &&& forall|i: int| 0 <= i < b.len() ==> token_byte(#[trigger] b[i])
}

/// Relies on `HeaderName::from_bytes` of the http crate (re-exported by
/// reqwest): it accepts exactly the names of 1 to 65535 bytes that its
/// table of token bytes maps to a non-zero byte.
pub assume_specification[ reqwest::header::HeaderName::from_bytes ](src: &[u8]) -> (r: Result<
    reqwest::header::HeaderName,
    reqwest::header::InvalidHeaderName,
>)
    ensures
        r is Ok <==> header_name_ok(src@),
;

/// A header whose name and value the header parser both accept.
pub open spec fn header_ok(h: (String, String)) -> bool {
    header_name_ok(encode_utf8(h.0@)) && header_value_ok(h.1@)
}

/// Every header of the list is accepted.
pub open spec fn headers_ok(hs: Seq<(String, String)>) -> bool {
    forall|i: int| 0 <= i < hs.len() ==> header_ok(#[trigger] hs[i])
}

/// The headers before position `k` are all accepted.
pub open spec fn headers_ok_before(hs: Seq<(String, String)>, k: int) -> bool {
    forall|j: int| 0 <= j < k ==> header_ok(#[trigger] hs[j])
}

/// A character that may stand in a header value and is ASCII.
pub open spec fn value_char(c: char) -> bool {
    c == '\t' || (' ' <= c && c <= '~')
}

/// An ASCII character whose byte is a token byte.
pub open spec fn name_char(c: char) -> bool {
    (c as u32) < 128 && token_byte(c as u32 as u8)
}

/// From position `k` on, every character is a `value_char`.
pub open spec fn value_chars_from(s: Seq<char>, k: int) -> bool
    decreases s.len() - k,
{
    if 0 <= k < s.len() {
        value_char(s[k]) && value_chars_from(s, k + 1)
    } else {
        true
    }
}

/// From position `k` on, every character is a `name_char`.
pub open spec fn name_chars_from(s: Seq<char>, k: int) -> bool
    decreases s.len() - k,
{
    if 0 <= k < s.len() {
        name_char(s[k]) && name_chars_from(s, k + 1)
    } else {
        true
    }
}

proof fn lemma_value_chars_from(s: Seq<char>, k: int)
    requires
        0 <= k,
        value_chars_from(s, k),
    ensures
        forall|i: int| k <= i < s.len() ==> value_char(#[trigger] s[i]),
    decreases s.len() - k,
{
    if k < s.len() {
        lemma_value_chars_from(s, k + 1);
    }
}

proof fn lemma_name_chars_from(s: Seq<char>, k: int)
    requires
        0 <= k,
        name_chars_from(s, k),
    ensures
        forall|i: int| k <= i < s.len() ==> name_char(#[trigger] s[i]),
    decreases s.len() - k,
{
    if k < s.len() {
        lemma_name_chars_from(s, k + 1);
    }
}

/// An ASCII text encodes to one byte per character, that character's code.
proof fn lemma_ascii_encoding(s: Seq<char>)
    requires
        forall|i: int| 0 <= i < s.len() ==> (#[trigger] s[i]) as u32 <= 0x7F,
    ensures
        encode_utf8(s).len() == s.len(),
        forall|i: int| 0 <= i < s.len() ==> #[trigger] encode_utf8(s)[i] == s[i] as u32 as u8,
    decreases s.len(),
{
    if s.len() > 0 {
        let t = s.drop_first();
        assert forall|i: int| 0 <= i < t.len() implies (#[trigger] t[i]) as u32 <= 0x7F by {
            assert(t[i] == s[i + 1]);
        }
        lemma_ascii_encoding(t);
        let v = s[0] as u32;
        assert(v & 0x7F == v) by (bit_vector)
            requires
                v <= 0x7F,
        ;
        assert forall|i: int| 0 <= i < s.len() implies #[trigger] encode_utf8(s)[i] == s[i] as u32
            as u8 by {
            if i > 0 {
                assert(s[i] == t[i - 1]);
            }
        }
    }
}

/// A header written with name and value characters only is accepted.
proof fn lemma_plain_header(name: Seq<char>, value: Seq<char>)
    requires
        1 <= name.len() <= 65535,
        name_chars_from(name, 0),
        value_chars_from(value, 0),
    ensures
        header_name_ok(encode_utf8(name)),
        header_value_ok(value),
{
    lemma_name_chars_from(name, 0);
    lemma_value_chars_from(value, 0);
    lemma_ascii_encoding(name);
    lemma_ascii_encoding(value);
    assert forall|i: int| 0 <= i < encode_utf8(name).len() implies token_byte(
        #[trigger] encode_utf8(name)[i],
    ) by {
        assert(name_char(name[i]));
    }
    assert forall|i: int| 0 <= i < encode_utf8(value).len() implies header_value_byte(
        #[trigger] encode_utf8(value)[i],
    ) by {
        assert(value_char(value[i]));
    }
}

impl SourceConfig {
    /// Turns the configured headers into typed names and values, in order.
    /// The first header whose value or name the header parser refuses gives
    /// the error; its value is looked at before its name.
    pub fn typed_headers(&self) -> (r: Result<
        Vec<(reqwest::header::HeaderName, reqwest::header::HeaderValue)>,
        ConfigError,
    >)
        ensures
            r is Ok <==> headers_ok(self.headers@),
            r matches Ok(v) ==> v@.len() == self.headers@.len(),
            r == Err::<Vec<(reqwest::header::HeaderName, reqwest::header::HeaderValue)>, ConfigError>(
                ConfigError::InvalidHeaderValue,
            ) <==> exists|k: int|
                #![trigger self.headers@[k]]
                0 <= k < self.headers@.len() && headers_ok_before(self.headers@, k)
                    && !header_value_ok(self.headers@[k].1@),
            r == Err::<Vec<(reqwest::header::HeaderName, reqwest::header::HeaderValue)>, ConfigError>(
                ConfigError::InvalidHeaderName,
            ) <==> exists|k: int|
                #![trigger self.headers@[k]]
                0 <= k < self.headers@.len() && headers_ok_before(self.headers@, k)
                    && header_value_ok(self.headers@[k].1@) && !header_name_ok(
                    encode_utf8(self.headers@[k].0@),
                ),
    {
        let ghost hs = self.headers@;
        let mut out: Vec<(reqwest::header::HeaderName, reqwest::header::HeaderValue)> = Vec::new();
        let mut i: usize = 0;
        while i < self.headers.len()
            invariant
                hs == self.headers@,
                0 <= i <= hs.len(),
                out@.len() == i,
                headers_ok_before(hs, i as int),
            decreases hs.len() - i,
        {
            let h = &self.headers[i];
            let value = match reqwest::header::HeaderValue::from_str(h.1.as_str()) {
                Ok(v) => v,
                Err(_) => {
                    proof {
                        assert(!header_ok(hs[i as int]));
                        assert forall|k: int|
                            #![trigger hs[k]]
                            0 <= k < hs.len() && headers_ok_before(hs, k) && header_value_ok(hs[k].1@)
                                && !header_name_ok(encode_utf8(hs[k].0@)) implies false by {
                            if k < i {
                                assert(header_ok(hs[k]));
                            } else if k > i {
                                assert(header_ok(hs[i as int]));
                            }
                        }
                    }
                    return Err(ConfigError::InvalidHeaderValue);
                },
            };
            let name = match reqwest::header::HeaderName::from_bytes(h.0.as_str().as_bytes()) {
                Ok(n) => n,
                Err(_) => {
                    proof {
                        assert(!header_ok(hs[i as int]));
                        assert forall|k: int|
                            #![trigger hs[k]]
                            0 <= k < hs.len() && headers_ok_before(hs, k) && !header_value_ok(hs[k].1@)
                            implies false by {
                            if k < i {
                            } else if k > i {
                                assert(header_ok(hs[i as int]));
                            }
                        }
                    }
                    return Err(ConfigError::InvalidHeaderName);
                },
            };
            out.push((name, value));
            i = i + 1;
        }
        proof {
            assert forall|k: int|
                #![trigger hs[k]]
                0 <= k < hs.len() implies header_ok(hs[k]) by {
                assert(headers_ok_before(hs, hs.len() as int));
            }
        }
        Ok(out)
    }
}

} // verus!
