//! Checking and normalising a subscription request: the Bark key, the
//! Bark server, the monitored places and the notification bands; and the
//! answers of the subscription API.
use vstd::prelude::*;
use vstd::string::*;
use crate::text::{
    ascii_lower, ascii_lower_chars, chars_equal, chars_of, string_of, texts_of, trim, trim_chars,
};

verus! {

// ------------------------------------------------------------------
// API answers
// ------------------------------------------------------------------

/// The answer to a successful subscription.
#[derive(Debug, Clone, Copy, PartialEq, Eq)]
pub struct SubscribeResponse {
    pub saved: bool,
}

impl SubscribeResponse {
    /// The answer once the subscription is stored.
    pub fn stored() -> (r: SubscribeResponse)
        ensures
            r.saved,
    {
        SubscribeResponse { saved: true }
    }
}

/// The answer to a statistics request.
#[derive(Debug, Clone, Copy, PartialEq, Eq)]
pub struct StatsResponse {
    pub total_subscriptions: usize,
}

// ------------------------------------------------------------------
// Bark key
// ------------------------------------------------------------------

/// Why a Bark key is refused.
#[derive(Debug, Clone, Copy, PartialEq, Eq)]
pub enum BarkIdError {
    Empty,
    TooLong,
    InvalidCharacters,
}

/// The text shown for a refused Bark key.
pub open spec fn bark_id_error_text(e: BarkIdError) -> Seq<char> {
    match e {
        BarkIdError::Empty => "Bark ID 不能为空"@,
        BarkIdError::TooLong => "Bark ID 过长（最大64字符）"@,
        BarkIdError::InvalidCharacters => "Bark ID 只能包含字母、数字"@,
    }
}

impl BarkIdError {
    /// The text shown to the user.
    pub fn message(&self) -> (r: String)
        ensures
            r@ == bark_id_error_text(*self),
    {
        match self {
            BarkIdError::Empty => String::from_str("Bark ID 不能为空"),
            BarkIdError::TooLong => String::from_str("Bark ID 过长（最大64字符）"),
            BarkIdError::InvalidCharacters => String::from_str("Bark ID 只能包含字母、数字"),
        }
    }
}

/// Whether a character is alphabetic or numeric in Unicode
/// (`char::is_alphanumeric`).
pub uninterp spec fn unicode_alphanumeric(c: char) -> bool;

/// `char::is_alphanumeric`: Unicode `Alphabetic` or numeric (`Nd`, `Nl`,
/// `No`). The contract names the result; of ASCII it states what the
/// documentation gives: letters and digits are alphanumeric, the other
/// ASCII characters are not.
#[verifier::external_body]
fn is_alphanumeric(c: char) -> (r: bool)
    ensures
        r == unicode_alphanumeric(c),
        ('a' <= c <= 'z' || 'A' <= c <= 'Z' || '0' <= c <= '9') ==> r,
        (c as u32) < 128 && !('a' <= c <= 'z' || 'A' <= c <= 'Z' || '0' <= c <= '9') ==> !r,
{
    c.is_alphanumeric()
}

/// Longest Bark key, in bytes of UTF-8.
pub const MAX_BARK_ID_BYTES: usize = 64;

/// Bytes of the UTF-8 encoding of a character.
pub open spec fn utf8_width(c: char) -> int {
    if (c as int) < 0x80 {
        1
    } else if (c as int) < 0x800 {
        2
    } else if (c as int) < 0x10000 {
        3
    } else {
        4
    }
}

/// Bytes of the UTF-8 encoding of a text (`str::len`).
pub open spec fn utf8_len(s: Seq<char>) -> int
    decreases s.len(),
{
    if s.len() == 0 {
        0
    } else {
        utf8_len(s.drop_last()) + utf8_width(s.last())
    }
}

/// Bytes of the UTF-8 encoding of `c`.
fn char_utf8_width(c: char) -> (w: usize)
    ensures
        w == utf8_width(c),
{
    let u = c as u32;
    if u < 0x80 {
        1
    } else if u < 0x800 {
        2
    } else if u < 0x10000 {
        3
    } else {
        4
    }
}

proof fn lemma_utf8_len_grows(s: Seq<char>, k: int)
    requires
        0 <= k <= s.len(),
    ensures
        utf8_len(s.take(k)) <= utf8_len(s),
    decreases s.len() - k,
{
    if k < s.len() {
        assert(s.take(k + 1).drop_last() =~= s.take(k));
        lemma_utf8_len_grows(s, k + 1);
    } else {
        assert(s.take(k) =~= s);
    }
}

/// The check of a Bark key: not blank, at most 64 bytes, and only letters
/// and digits (in the Unicode sense), in that order.
pub open spec fn bark_id_check(id: Seq<char>) -> Result<(), BarkIdError> {
    if trim(id).len() == 0 {
        Err(BarkIdError::Empty)
    } else if utf8_len(id) > MAX_BARK_ID_BYTES {
        Err(BarkIdError::TooLong)
    } else if !(forall|i: int| 0 <= i < id.len() ==> #[trigger] unicode_alphanumeric(id[i])) {
        Err(BarkIdError::InvalidCharacters)
    } else {
        Ok(())
    }
}

/// Checks a Bark key (see `bark_id_check`).
pub fn validate_bark_id(bark_id: &str) -> (r: Result<(), BarkIdError>)
    ensures
        r == bark_id_check(bark_id@),
{
    let chars = chars_of(bark_id);
    let trimmed = trim_chars(&chars);
    if trimmed.len() == 0 {
        return Err(BarkIdError::Empty);
    }
    let mut bytes: usize = 0;
    let mut i: usize = 0;
    while i < chars.len()
        invariant
            chars@ == bark_id@,
            i <= chars@.len(),
            bytes == utf8_len(bark_id@.take(i as int)),
            bytes <= MAX_BARK_ID_BYTES,
            trim(bark_id@).len() > 0,
        decreases chars@.len() - i,
    {
        assert(bark_id@.take(i + 1).drop_last() =~= bark_id@.take(i as int));
        assert(bark_id@.take(i + 1).last() == chars@[i as int]);
        let width = char_utf8_width(chars[i]);
        assert(width == utf8_width(chars@[i as int]));
        bytes = bytes + width;
        i = i + 1;
        if bytes > MAX_BARK_ID_BYTES {
            proof {
                lemma_utf8_len_grows(bark_id@, i as int);
            }
            return Err(BarkIdError::TooLong);
        }
    }
    assert(bark_id@.take(chars@.len() as int) =~= bark_id@);
    let mut i: usize = 0;
    while i < chars.len()
        invariant
            chars@ == bark_id@,
            i <= chars@.len(),
            trim(bark_id@).len() > 0,
            utf8_len(bark_id@) <= MAX_BARK_ID_BYTES,
            forall|j: int| 0 <= j < i ==> #[trigger] unicode_alphanumeric(bark_id@[j]),
        decreases chars@.len() - i,
    {
        if !is_alphanumeric(chars[i]) {
            return Err(BarkIdError::InvalidCharacters);
        }
        i = i + 1;
    }
    Ok(())
}

/// The key of an unsubscribe request: trimmed, then checked as
/// `validate_bark_id` does.
pub fn normalize_unsubscribe_bark_id(bark_id: &str) -> (r: Result<String, BarkIdError>)
    ensures
        match r {
            Ok(id) => id@ == trim(bark_id@) && bark_id_check(id@) == Ok::<(), BarkIdError>(()),
            Err(e) => bark_id_check(trim(bark_id@)) == Err::<(), BarkIdError>(e),
        },
{
    let chars = chars_of(bark_id);
    let trimmed = trim_chars(&chars);
    let id = string_of(&trimmed);
    match validate_bark_id(id.as_str()) {
        Ok(()) => Ok(id),
        Err(e) => Err(e),
    }
}

// ------------------------------------------------------------------
// Bark server
// ------------------------------------------------------------------

/// Why a Bark server address is refused.
#[derive(Debug, Clone, Copy, PartialEq, Eq)]
pub enum BarkServerError {
    Invalid,
    NotHttps,
}

/// The text shown for a refused Bark server address.
pub open spec fn bark_server_error_text(e: BarkServerError) -> Seq<char> {
    match e {
        BarkServerError::Invalid => "Bark 服务器地址无效"@,
        BarkServerError::NotHttps => "Bark 服务器必须使用 HTTPS"@,
    }
}

impl BarkServerError {
    /// The text shown to the user.
    pub fn message(&self) -> (r: String)
        ensures
            r@ == bark_server_error_text(*self),
    {
        match self {
            BarkServerError::Invalid => String::from_str("Bark 服务器地址无效"),
            BarkServerError::NotHttps => String::from_str("Bark 服务器必须使用 HTTPS"),
        }
    }
}

/// The parts of a parsed URL that the server check reads: scheme, host,
/// user name and password.
pub struct UrlReading {
    pub scheme: String,
    pub host: Option<String>,
    pub username: String,
    pub password: Option<String>,
}

/// A URL's parts as plain text.
pub type UrlParts = (Seq<char>, Option<Seq<char>>, Seq<char>, Option<Seq<char>>);

/// Parts of a URL reading.
pub open spec fn url_reading_parts(u: UrlReading) -> UrlParts {
    (
        u.scheme@,
        match u.host {
            Some(h) => Some(h@),
            None => None,
        },
        u.username@,
        match u.password {
            Some(p) => Some(p@),
            None => None,
        },
    )
}

/// What `url::Url::parse` makes of a text, read through `scheme`,
/// `host_str`, `username` and `password`; `None` when it does not parse.
pub uninterp spec fn parsed_url(text: Seq<char>) -> Option<UrlParts>;

/// `url::Url::parse`, with the parsed URL read through `Url::scheme`,
/// `Url::host_str`, `Url::username` and `Url::password`. The contract
/// names the outcome as a function of the text alone; the WHATWG parsing
/// rules themselves are not stated.
#[verifier::external_body]
fn read_url(text: &str) -> (r: Option<UrlReading>)
    ensures
        match r {
            Some(u) => parsed_url(text@) == Some(url_reading_parts(u)),
            None => parsed_url(text@) is None,
        },
{
    match url::Url::parse(text) {
        Ok(u) => Some(
            UrlReading {
                scheme: u.scheme().to_string(),
                host: u.host_str().map(String::from),
                username: u.username().to_string(),
                password: u.password().map(String::from),
            },
        ),
        Err(_) => None,
    }
}

/// The text without its trailing `c` characters (`trim_end_matches`).
pub open spec fn trim_end_char(s: Seq<char>, c: char) -> Seq<char>
    decreases s.len(),
{
    if s.len() > 0 && s.last() == c {
        trim_end_char(s.drop_last(), c)
    } else {
        s
    }
}

/// A Bark server address as stored: trimmed, without trailing slashes;
/// empty (the official server) when nothing is left. Otherwise it must
/// parse as a URL with scheme `https`, a host, and no user name or
/// password.
pub open spec fn bark_server_check(value: Seq<char>) -> Result<Seq<char>, BarkServerError> {
    let t = trim_end_char(trim(value), '/');
    if t.len() == 0 {
        Ok(t)
    } else {
        match parsed_url(t) {
            None => Err(BarkServerError::Invalid),
            Some(parts) => if parts.0 != "https"@ {
                Err(BarkServerError::NotHttps)
            } else if parts.1 is None || parts.2.len() != 0 || parts.3 is Some {
                Err(BarkServerError::Invalid)
            } else {
                Ok(t)
            },
        }
    }
}

proof fn lemma_trim_end_char(s: Seq<char>, c: char, b: int)
    requires
        0 <= b <= s.len(),
        forall|j: int| b <= j < s.len() ==> #[trigger] s[j] == c,
        b == 0 || s[b - 1] != c,
    ensures
        trim_end_char(s, c) == s.take(b),
    decreases s.len() - b,
{
    if b == s.len() {
        assert(s.take(b) =~= s);
    } else {
        let t = s.drop_last();
        assert forall|j: int| b <= j < t.len() implies #[trigger] t[j] == c by {
            assert(t[j] == s[j]);
        }
        lemma_trim_end_char(t, c, b);
        assert(t.take(b) =~= s.take(b));
    }
}

/// Checks and normalises a Bark server address (see `bark_server_check`).
pub fn normalize_bark_server(value: &str) -> (r: Result<String, BarkServerError>)
    ensures
        match r {
            Ok(s) => bark_server_check(value@) == Ok::<Seq<char>, BarkServerError>(s@),
            Err(e) => bark_server_check(value@) == Err::<Seq<char>, BarkServerError>(e),
        },
{
    let chars = chars_of(value);
    let trimmed = trim_chars(&chars);
    let mut b = trimmed.len();
    while b > 0 && trimmed[b - 1] == '/'
        invariant
            b <= trimmed@.len(),
            forall|j: int| b <= j < trimmed@.len() ==> #[trigger] trimmed@[j] == '/',
        decreases b,
    {
        b = b - 1;
    }
    proof {
        lemma_trim_end_char(trimmed@, '/', b as int);
    }
    let mut kept: Vec<char> = Vec::new();
    let mut i: usize = 0;
    while i < b
        invariant
            b <= trimmed@.len(),
            i <= b,
            kept@ =~= trimmed@.take(i as int),
        decreases b - i,
    {
        kept.push(trimmed[i]);
        i = i + 1;
    }
    let text = string_of(&kept);
    if b == 0 {
        return Ok(text);
    }
    let parts = match read_url(text.as_str()) {
        Some(p) => p,
        None => return Err(BarkServerError::Invalid),
    };
    if !text_equal(parts.scheme.as_str(), "https") {
        return Err(BarkServerError::NotHttps);
    }
    if parts.host.is_none() || parts.username.as_str().unicode_len() != 0 || parts.password.is_some() {
        return Err(BarkServerError::Invalid);
    }
    Ok(text)
}

fn text_equal(a: &str, b: &str) -> (r: bool)
    ensures
        r == (a@ == b@),
{
    crate::text::same_text(a, b)
}

// ------------------------------------------------------------------
// Monitored places
// ------------------------------------------------------------------

/// Most places one subscription monitors.
pub const MAX_LOCATIONS: usize = 3;

/// Longest place name, in characters.
pub const MAX_LOCATION_NAME_CHARS: usize = 80;

/// Why the places of a request are refused.
#[derive(Debug, Clone, Copy, PartialEq, Eq)]
pub enum LocationError {
    TooMany,
    InvalidCoordinates,
    NameTooLong,
}

/// The text shown for refused places.
pub open spec fn location_error_text(e: LocationError) -> Seq<char> {
    match e {
        LocationError::TooMany => "监测地点最多 3 个"@,
        LocationError::InvalidCoordinates => "监测地点坐标无效"@,
        LocationError::NameTooLong => "监测地点名称最多 80 个字符"@,
    }
}

impl LocationError {
    /// The text shown to the user.
    pub fn message(&self) -> (r: String)
        ensures
            r@ == location_error_text(*self),
    {
        match self {
            LocationError::TooMany => String::from_str("监测地点最多 3 个"),
            LocationError::InvalidCoordinates => String::from_str("监测地点坐标无效"),
            LocationError::NameTooLong => String::from_str("监测地点名称最多 80 个字符"),
        }
    }
}

/// The places as listed: the request's list, or, when it is empty, the
/// single place of the request's own name (trimmed) and coordinates.
/// Each place is its name and whether its coordinates are valid.
pub open spec fn listed_places(
    fallback_name: Seq<char>,
    fallback_valid: bool,
    names: Seq<Seq<char>>,
    valid: Seq<bool>,
) -> Seq<(Seq<char>, bool)> {
    if names.len() == 0 {
        seq![(trim(fallback_name), fallback_valid)]
    } else {
        Seq::new(names.len(), |i: int| (names[i], valid[i]))
    }
}

/// The place names kept: at most 3 places, every one with valid
/// coordinates, every trimmed name at most 80 characters; the names are
/// kept trimmed, in order.
pub open spec fn places_check(places: Seq<(Seq<char>, bool)>) -> Result<Seq<Seq<char>>, LocationError> {
    if places.len() > MAX_LOCATIONS {
        Err(LocationError::TooMany)
    } else if exists|i: int| 0 <= i < places.len() && !(#[trigger] places[i]).1 {
        Err(LocationError::InvalidCoordinates)
    } else if exists|i: int| 0 <= i < places.len() && trim((#[trigger] places[i]).0).len() > MAX_LOCATION_NAME_CHARS {
        Err(LocationError::NameTooLong)
    } else {
        Ok(Seq::new(places.len(), |i: int| trim(places[i].0)))
    }
}

/// Up to three places, every one with valid coordinates and a name of at
/// most 80 characters once trimmed, are accepted, their names kept trimmed
/// in order; too many places is the refusal only of more than three; and an
/// accepted list is never longer than three.
pub proof fn lemma_places_accepted(places: Seq<(Seq<char>, bool)>)
    ensures
        (places.len() <= 3 && (forall|i: int| 0 <= i < places.len() ==> (#[trigger] places[i]).1)
            && (forall|i: int| 0 <= i < places.len() ==> trim((#[trigger] places[i]).0).len() <= 80))
            ==> (places_check(places) matches Ok(names) && names.len() == places.len() && forall|i: int|
            0 <= i < places.len() ==> #[trigger] names[i] == trim(places[i].0)),
        places_check(places) == Err::<Seq<Seq<char>>, LocationError>(LocationError::TooMany) ==> places.len() > 3,
        places_check(places) is Ok ==> places_check(places)->Ok_0.len() == places.len() && places.len() <= 3,
        places.len() > 3 ==> places_check(places) is Err,
{
}

/// The text of a string.
pub open spec fn string_view(s: String) -> Seq<char> {
    s@
}

/// Checks the places of a request and returns their names, trimmed (see
/// `places_check`); `coordinates_valid[i]` tells whether place `i` has
/// valid coordinates, `fallback_valid` the same of the request's own
/// coordinates.
pub fn normalize_locations(
    fallback_name: &str,
    fallback_valid: bool,
    names: &Vec<String>,
    coordinates_valid: &Vec<bool>,
) -> (r: Result<Vec<String>, LocationError>)
    requires
        names@.len() == coordinates_valid@.len(),
    ensures
        match r {
            Ok(v) => places_check(
                listed_places(fallback_name@, fallback_valid, texts_of(names@), coordinates_valid@),
            ) == Ok::<Seq<Seq<char>>, LocationError>(texts_of(v@)),
            Err(e) => places_check(
                listed_places(fallback_name@, fallback_valid, texts_of(names@), coordinates_valid@),
            ) == Err::<Seq<Seq<char>>, LocationError>(e),
        },
{
    let ghost places = listed_places(
        fallback_name@,
        fallback_valid,
        texts_of(names@),
        coordinates_valid@,
    );
    let mut list: Vec<String> = Vec::new();
    let mut valid: Vec<bool> = Vec::new();
    if names.len() == 0 {
        let chars = chars_of(fallback_name);
        list.push(string_of(&trim_chars(&chars)));
        valid.push(fallback_valid);
    } else {
        let mut i: usize = 0;
        while i < names.len()
            invariant
                names@.len() == coordinates_valid@.len(),
                i <= names@.len(),
                list@.len() == i,
                valid@.len() == i,
                forall|j: int| 0 <= j < i ==> #[trigger] string_view(list@[j]) == names@[j]@,
                forall|j: int| 0 <= j < i ==> #[trigger] valid@[j] == coordinates_valid@[j],
            decreases names@.len() - i,
        {
            let name = names[i].clone();
            assert(name@ == names@[i as int]@);
            list.push(name);
            valid.push(coordinates_valid[i]);
            assert(list@[i as int]@ == names@[i as int]@);
            i = i + 1;
        }
    }
    assert(list@.len() == places.len());
    assert forall|j: int| 0 <= j < places.len() implies #[trigger] places[j] == (list@[j]@, valid@[j]) by {
        if names@.len() > 0 {
            assert(string_view(list@[j]) == names@[j]@);
            assert(valid@[j] == coordinates_valid@[j]);
        }
    }
    if list.len() > MAX_LOCATIONS {
        return Err(LocationError::TooMany);
    }
    let mut i: usize = 0;
    while i < valid.len()
        invariant
            valid@.len() == places.len(),
            list@.len() == places.len(),
            forall|j: int| 0 <= j < places.len() ==> #[trigger] places[j] == (list@[j]@, valid@[j]),
            places.len() <= MAX_LOCATIONS,
            places == listed_places(
                fallback_name@,
                fallback_valid,
                texts_of(names@),
                coordinates_valid@,
            ),
            i <= valid@.len(),
            forall|j: int| 0 <= j < i ==> (#[trigger] places[j]).1,
        decreases valid@.len() - i,
    {
        if !valid[i] {
            assert(!places[i as int].1);
            return Err(LocationError::InvalidCoordinates);
        }
        i = i + 1;
    }
    let mut out: Vec<String> = Vec::new();
    let mut k: usize = 0;
    while k < list.len()
        invariant
            valid@.len() == places.len(),
            list@.len() == places.len(),
            forall|j: int| 0 <= j < places.len() ==> #[trigger] places[j] == (list@[j]@, valid@[j]),
            forall|j: int| 0 <= j < places.len() ==> (#[trigger] places[j]).1,
            places.len() <= MAX_LOCATIONS,
            places == listed_places(
                fallback_name@,
                fallback_valid,
                texts_of(names@),
                coordinates_valid@,
            ),
            k <= list@.len(),
            out@.len() == k,
            forall|j: int|
                #![trigger out@[j]]
                0 <= j < k ==> out@[j]@ == trim(places[j].0) && trim(places[j].0).len()
                    <= MAX_LOCATION_NAME_CHARS,
        decreases list@.len() - k,
    {
        let chars = chars_of(list[k].as_str());
        let trimmed = trim_chars(&chars);
        if trimmed.len() > MAX_LOCATION_NAME_CHARS {
            assert(trim(places[k as int].0).len() > MAX_LOCATION_NAME_CHARS);
            return Err(LocationError::NameTooLong);
        }
        out.push(string_of(&trimmed));
        k = k + 1;
    }
    assert(texts_of(out@) =~= Seq::new(places.len(), |i: int| trim(places[i].0)));
    assert(!(exists|i: int| 0 <= i < places.len() && !(#[trigger] places[i]).1));
    assert forall|i: int| 0 <= i < places.len() implies trim((#[trigger] places[i]).0).len()
        <= MAX_LOCATION_NAME_CHARS by {
        assert(out@[i]@ == trim(places[i].0));
    }
    Ok(out)
}

// ------------------------------------------------------------------
// Notification bands
// ------------------------------------------------------------------

/// Most bands one subscription has.
pub const MAX_NOTIFY_BANDS: usize = 3;

/// Longest band label, in characters.
pub const MAX_BAND_LABEL_CHARS: usize = 32;

/// Highest intensity a band may name.
pub const MAX_BAND_INTENSITY: u32 = 99;

/// A push level for an intensity range.
#[derive(Debug)]
pub struct NotificationBand {
    pub min: u32,
    pub max: u32,
    pub level: String,
    pub label: String,
}

/// A band as plain values: minimum, maximum, level, label.
pub type BandValue = (u32, u32, Seq<char>, Seq<char>);

impl View for NotificationBand {
    type V = BandValue;

    open spec fn view(&self) -> BandValue {
        (self.min, self.max, self.level@, self.label@)
    }
}

/// Views of a list of bands.
pub open spec fn band_views(v: Seq<NotificationBand>) -> Seq<BandValue> {
    Seq::new(v.len(), |i: int| v[i]@)
}

/// Why the bands of a request are refused.
#[derive(Debug, Clone, Copy, PartialEq, Eq)]
pub enum BandError {
    Empty,
    TooMany,
    InvalidLevel,
    DuplicateLevel,
    InvalidRange,
    LabelTooLong,
    Overlap,
}

/// The text shown for refused bands.
pub open spec fn band_error_text(e: BandError) -> Seq<char> {
    match e {
        BandError::Empty => "请至少添加一条通知级别规则"@,
        BandError::TooMany => "通知级别规则最多 3 条"@,
        BandError::InvalidLevel => "通知级别必须是 passive、active 或 critical"@,
        BandError::DuplicateLevel => "每个通知级别只能添加一条规则"@,
        BandError::InvalidRange => "通知级别烈度范围无效"@,
        BandError::LabelTooLong => "通知级别标签最多 32 个字符"@,
        BandError::Overlap => "通知级别烈度范围不能重叠"@,
    }
}

impl BandError {
    /// The text shown to the user.
    pub fn message(&self) -> (r: String)
        ensures
            r@ == band_error_text(*self),
    {
        match self {
            BandError::Empty => String::from_str("请至少添加一条通知级别规则"),
            BandError::TooMany => String::from_str("通知级别规则最多 3 条"),
            BandError::InvalidLevel => String::from_str("通知级别必须是 passive、active 或 critical"),
            BandError::DuplicateLevel => String::from_str("每个通知级别只能添加一条规则"),
            BandError::InvalidRange => String::from_str("通知级别烈度范围无效"),
            BandError::LabelTooLong => String::from_str("通知级别标签最多 32 个字符"),
            BandError::Overlap => String::from_str("通知级别烈度范围不能重叠"),
        }
    }
}

/// The Bark push levels.
pub open spec fn is_bark_level(level: Seq<char>) -> bool {
    level == "passive"@ || level == "active"@ || level == "critical"@
}

/// `b` placed into the list `sorted` after every band whose minimum is
/// not above its own (the step of a stable sort by minimum).
pub open spec fn insert_by_min(sorted: Seq<BandValue>, b: BandValue) -> Seq<BandValue>
    decreases sorted.len(),
{
    if sorted.len() == 0 || sorted.last().0 <= b.0 {
        sorted.push(b)
    } else {
        insert_by_min(sorted.drop_last(), b).push(sorted.last())
    }
}

/// The bands in a stable order of their minimum (`sort_by_key`).
pub open spec fn sort_by_min(s: Seq<BandValue>) -> Seq<BandValue>
    decreases s.len(),
{
    if s.len() == 0 {
        s
    } else {
        insert_by_min(sort_by_min(s.drop_last()), s.last())
    }
}

/// Two intensity ranges share a value.
pub open spec fn ranges_overlap(a: BandValue, b: BandValue) -> bool {
    a.0 <= b.1 && b.0 <= a.1
}

/// One band checked against the bands already accepted: its level,
/// trimmed and lower-cased, must be a Bark level not taken yet; its range
/// must be ordered and within 0..=99; a critical band whose top is below 7
/// reaches up to 99; its label, trimmed, has at most 32 characters; and its
/// range shares no value with an accepted band.
pub open spec fn check_band(done: Seq<BandValue>, b: BandValue) -> Result<BandValue, BandError> {
    let level = ascii_lower(trim(b.2));
    let max: u32 = if level == "critical"@ && b.1 < 7 {
        MAX_BAND_INTENSITY
    } else {
        b.1
    };
    let label = trim(b.3);
    let out = (b.0, max, level, label);
    if !is_bark_level(level) {
        Err(BandError::InvalidLevel)
    } else if exists|j: int| 0 <= j < done.len() && (#[trigger] done[j]).2 == level {
        Err(BandError::DuplicateLevel)
    } else if b.0 > b.1 || b.0 > MAX_BAND_INTENSITY || b.1 > MAX_BAND_INTENSITY {
        Err(BandError::InvalidRange)
    } else if label.len() > MAX_BAND_LABEL_CHARS {
        Err(BandError::LabelTooLong)
    } else if exists|j: int| 0 <= j < done.len() && ranges_overlap(#[trigger] done[j], out) {
        Err(BandError::Overlap)
    } else {
        Ok(out)
    }
}

/// The bands checked one after the other; the first refusal stops.
pub open spec fn check_bands(s: Seq<BandValue>) -> Result<Seq<BandValue>, BandError>
    decreases s.len(),
{
    if s.len() == 0 {
        Ok(Seq::empty())
    } else {
        match check_bands(s.drop_last()) {
            Err(e) => Err(e),
            Ok(done) => match check_band(done, s.last()) {
                Ok(b) => Ok(done.push(b)),
                Err(e) => Err(e),
            },
        }
    }
}

/// The normalised bands of a request: one to three bands, sorted by their
/// minimum and checked in that order.
pub open spec fn bands_check(bands: Seq<BandValue>) -> Result<Seq<BandValue>, BandError> {
    if bands.len() == 0 {
        Err(BandError::Empty)
    } else if bands.len() > MAX_NOTIFY_BANDS {
        Err(BandError::TooMany)
    } else {
        check_bands(sort_by_min(bands))
    }
}

/// Bands as a subscription keeps them: every level a Bark level and no
/// level twice, every range ordered and within 0..=99, every label at most
/// 32 characters, no two ranges sharing a value.
pub open spec fn bands_well_formed(v: Seq<BandValue>) -> bool {
    &&& forall|i: int|
        0 <= i < v.len() ==> is_bark_level((#[trigger] v[i]).2) && v[i].0 <= v[i].1 <= MAX_BAND_INTENSITY
            && v[i].3.len() <= MAX_BAND_LABEL_CHARS
    &&& forall|i: int, j: int|
        0 <= i < j < v.len() ==> (#[trigger] v[i]).2 != (#[trigger] v[j]).2 && !ranges_overlap(v[i], v[j])
}

/// Bands in order of their minimum.
pub open spec fn sorted_by_min(v: Seq<BandValue>) -> bool {
    forall|i: int, j: int| 0 <= i < j < v.len() ==> (#[trigger] v[i]).0 <= (#[trigger] v[j]).0
}

proof fn lemma_check_bands_well_formed(s: Seq<BandValue>)
    ensures
        check_bands(s) matches Ok(out) ==> bands_well_formed(out) && out.len() == s.len() && forall|i: int|
            0 <= i < s.len() ==> (#[trigger] out[i]).0 == s[i].0,
    decreases s.len(),
{
    if s.len() > 0 {
        lemma_check_bands_well_formed(s.drop_last());
        if let Ok(done) = check_bands(s.drop_last()) {
            if let Ok(b) = check_band(done, s.last()) {
                let out = done.push(b);
                assert forall|i: int, j: int| 0 <= i < j < out.len() implies (#[trigger] out[i]).2 != (
                #[trigger] out[j]).2 && !ranges_overlap(out[i], out[j]) by {
                    if j == out.len() - 1 {
                        assert(out[i] == done[i]);
                        if done[i].2 == b.2 {
                            assert(exists|k: int| 0 <= k < done.len() && (#[trigger] done[k]).2 == b.2);
                        }
                        if ranges_overlap(done[i], b) {
                            assert(exists|k: int| 0 <= k < done.len() && ranges_overlap(#[trigger] done[k], b));
                        }
                    } else {
                        assert(out[i] == done[i] && out[j] == done[j]);
                    }
                }
                assert forall|i: int| 0 <= i < out.len() implies is_bark_level((#[trigger] out[i]).2)
                    && out[i].0 <= out[i].1 <= MAX_BAND_INTENSITY && out[i].3.len() <= MAX_BAND_LABEL_CHARS by {
                    if i < done.len() {
                        assert(out[i] == done[i]);
                    }
                }
                assert forall|i: int| 0 <= i < s.len() implies (#[trigger] out[i]).0 == s[i].0 by {
                    if i < done.len() {
                        assert(out[i] == done[i]);
                        assert(s.drop_last()[i] == s[i]);
                    }
                }
            }
        }
    }
}

proof fn lemma_insert_by_min_sorted(sorted: Seq<BandValue>, b: BandValue)
    requires
        sorted_by_min(sorted),
    ensures
        sorted_by_min(insert_by_min(sorted, b)),
        insert_by_min(sorted, b).len() == sorted.len() + 1,
        forall|i: int|
            0 <= i < insert_by_min(sorted, b).len() ==> (#[trigger] insert_by_min(sorted, b)[i]) == b
                || exists|k: int| 0 <= k < sorted.len() && sorted[k] == insert_by_min(sorted, b)[i],
    decreases sorted.len(),
{
    let r = insert_by_min(sorted, b);
    if sorted.len() == 0 || sorted.last().0 <= b.0 {
        assert forall|i: int| 0 <= i < r.len() implies (#[trigger] r[i]) == b || exists|k: int|
            0 <= k < sorted.len() && sorted[k] == r[i] by {
            if i < sorted.len() {
                assert(sorted[i] == r[i]);
            }
        }
        assert forall|i: int, j: int| 0 <= i < j < r.len() implies (#[trigger] r[i]).0 <= (#[trigger] r[j]).0 by {
            if j == r.len() - 1 {
                assert(sorted[i].0 <= sorted.last().0);
            }
        }
    } else {
        let p = sorted.drop_last();
        let last = sorted.last();
        assert(sorted_by_min(p)) by {
            assert forall|i: int, j: int| 0 <= i < j < p.len() implies (#[trigger] p[i]).0 <= (#[trigger] p[j]).0 by {
                assert(p[i] == sorted[i] && p[j] == sorted[j]);
            }
        }
        lemma_insert_by_min_sorted(p, b);
        let inner = insert_by_min(p, b);
        assert(r == inner.push(last));
        assert forall|i: int| 0 <= i < r.len() implies (#[trigger] r[i]) == b || exists|k: int|
            0 <= k < sorted.len() && sorted[k] == r[i] by {
            if i < inner.len() {
                assert(r[i] == inner[i]);
                if inner[i] != b {
                    let k = choose|k: int| 0 <= k < p.len() && p[k] == inner[i];
                    assert(sorted[k] == p[k]);
                }
            } else {
                assert(sorted[sorted.len() - 1] == r[i]);
            }
        }
        assert forall|i: int, j: int| 0 <= i < j < r.len() implies (#[trigger] r[i]).0 <= (#[trigger] r[j]).0 by {
            if j == r.len() - 1 {
                assert(r[j] == last);
                assert(r[i] == inner[i]);
                if inner[i] == b {
                } else {
                    let k = choose|k: int| 0 <= k < p.len() && p[k] == inner[i];
                    assert(sorted[k] == p[k]);
                    assert(sorted[k].0 <= sorted[sorted.len() - 1].0);
                }
            } else {
                assert(r[i] == inner[i] && r[j] == inner[j]);
            }
        }
    }
}

proof fn lemma_sort_by_min_sorted(s: Seq<BandValue>)
    ensures
        sorted_by_min(sort_by_min(s)),
        sort_by_min(s).len() == s.len(),
    decreases s.len(),
{
    if s.len() > 0 {
        lemma_sort_by_min_sorted(s.drop_last());
        lemma_insert_by_min_sorted(sort_by_min(s.drop_last()), s.last());
    }
}

/// The level of a requested band as it is checked: trimmed, lower-cased.
pub open spec fn band_level(b: BandValue) -> Seq<char> {
    ascii_lower(trim(b.2))
}

/// Two requested bands that can stand together: different levels,
/// ranges that share no value.
pub open spec fn bands_compatible(a: BandValue, b: BandValue) -> bool {
    band_level(a) != band_level(b) && !ranges_overlap(a, b)
}

proof fn lemma_insert_by_min_is_insert(sorted: Seq<BandValue>, b: BandValue)
    ensures
        exists|k: int| 0 <= k <= sorted.len() && insert_by_min(sorted, b) == sorted.insert(k, b),
    decreases sorted.len(),
{
    if sorted.len() == 0 || sorted.last().0 <= b.0 {
        assert(insert_by_min(sorted, b) =~= sorted.insert(sorted.len() as int, b));
    } else {
        let p = sorted.drop_last();
        lemma_insert_by_min_is_insert(p, b);
        let k = choose|k: int| 0 <= k <= p.len() && insert_by_min(p, b) == p.insert(k, b);
        assert(insert_by_min(sorted, b) =~= sorted.insert(k, b));
    }
}

/// Sorting by minimum keeps the bands: every sorted band is a requested
/// one, and bands pairwise compatible stay so.
proof fn lemma_sort_by_min_members(s: Seq<BandValue>)
    ensures
        sort_by_min(s).len() == s.len(),
        forall|i: int| 0 <= i < s.len() ==> exists|j: int| 0 <= j < s.len() && #[trigger] sort_by_min(s)[i] == s[j],
        (forall|i: int, j: int| 0 <= i < j < s.len() ==> bands_compatible(#[trigger] s[i], #[trigger] s[j]))
            ==> forall|i: int, j: int|
            0 <= i < j < s.len() ==> bands_compatible(#[trigger] sort_by_min(s)[i], #[trigger] sort_by_min(s)[j]),
    decreases s.len(),
{
    if s.len() > 0 {
        let p = s.drop_last();
        let b = s.last();
        lemma_sort_by_min_members(p);
        let sp = sort_by_min(p);
        lemma_insert_by_min_is_insert(sp, b);
        let k = choose|k: int| 0 <= k <= sp.len() && insert_by_min(sp, b) == sp.insert(k, b);
        let r = sort_by_min(s);
        assert(r == sp.insert(k, b));
        assert forall|i: int| 0 <= i < s.len() implies exists|j: int| 0 <= j < s.len() && #[trigger] r[i] == s[j] by {
            if i < k {
                let j = choose|j: int| 0 <= j < p.len() && #[trigger] sp[i] == p[j];
                assert(r[i] == sp[i] && s[j] == p[j]);
            } else if i == k {
                assert(r[i] == s[s.len() - 1]);
            } else {
                let j = choose|j: int| 0 <= j < p.len() && #[trigger] sp[i - 1] == p[j];
                assert(r[i] == sp[i - 1] && s[j] == p[j]);
            }
        }
        if forall|i: int, j: int| 0 <= i < j < s.len() ==> bands_compatible(#[trigger] s[i], #[trigger] s[j]) {
            assert forall|i: int, j: int| 0 <= i < j < p.len() implies bands_compatible(#[trigger] p[i], #[trigger] p[j]) by {
                assert(p[i] == s[i] && p[j] == s[j]);
            }
            assert forall|i: int| 0 <= i < sp.len() implies bands_compatible(#[trigger] sp[i], b) by {
                let j = choose|j: int| 0 <= j < p.len() && #[trigger] sp[i] == p[j];
                assert(p[j] == s[j]);
                assert(bands_compatible(s[j], s[s.len() - 1]));
            }
            assert forall|i: int, j: int| 0 <= i < j < r.len() implies bands_compatible(#[trigger] r[i], #[trigger] r[j]) by {
                if j < k {
                    assert(r[i] == sp[i] && r[j] == sp[j]);
                } else if j == k {
                    assert(r[i] == sp[i] && r[j] == b);
                } else if i < k {
                    assert(r[i] == sp[i] && r[j] == sp[j - 1]);
                } else if i == k {
                    assert(r[i] == b && r[j] == sp[j - 1]);
                    assert(bands_compatible(sp[j - 1], b));
                } else {
                    assert(r[i] == sp[i - 1] && r[j] == sp[j - 1]);
                }
            }
        }
    }
}

/// What checking makes of each band: its minimum, its level and label
/// normalised, its maximum as requested unless it is a critical band
/// below 7, which reaches up to 99.
proof fn lemma_check_bands_trace(s: Seq<BandValue>)
    ensures
        check_bands(s) is Ok ==> {
            let out = check_bands(s)->Ok_0;
            &&& out.len() == s.len()
            &&& forall|i: int|
                0 <= i < s.len() ==> (#[trigger] out[i]).0 == s[i].0 && out[i].2 == band_level(s[i])
                    && out[i].3 == trim(s[i].3) && (if band_level(s[i]) == "critical"@ && s[i].1 < 7 {
                    out[i].1 == 99
                } else {
                    out[i].1 == s[i].1
                })
        },
    decreases s.len(),
{
    if s.len() > 0 {
        lemma_check_bands_trace(s.drop_last());
        if check_bands(s) is Ok {
            let done = check_bands(s.drop_last())->Ok_0;
            let out = check_bands(s)->Ok_0;
            assert forall|i: int| 0 <= i < s.len() implies (#[trigger] out[i]).0 == s[i].0 && out[i].2
                == band_level(s[i]) && out[i].3 == trim(s[i].3) && (if band_level(s[i]) == "critical"@
                && s[i].1 < 7 {
                out[i].1 == 99
            } else {
                out[i].1 == s[i].1
            }) by {
                if i < done.len() {
                    assert(out[i] == done[i]);
                    assert(s.drop_last()[i] == s[i]);
                }
            }
        }
    }
}

/// Pairwise compatible bands that each pass alone are all accepted, each
/// as checking makes it.
proof fn lemma_check_bands_complete(s: Seq<BandValue>)
    requires
        forall|i: int|
            0 <= i < s.len() ==> is_bark_level(band_level(#[trigger] s[i])) && s[i].0 <= s[i].1 <= 99
                && trim(s[i].3).len() <= 32 && !(band_level(s[i]) == "critical"@ && s[i].1 < 7),
        forall|i: int, j: int| 0 <= i < j < s.len() ==> bands_compatible(#[trigger] s[i], #[trigger] s[j]),
    ensures
        check_bands(s) is Ok,
    decreases s.len(),
{
    if s.len() > 0 {
        let p = s.drop_last();
        let b = s.last();
        assert forall|i: int, j: int| 0 <= i < j < p.len() implies bands_compatible(#[trigger] p[i], #[trigger] p[j]) by {
            assert(p[i] == s[i] && p[j] == s[j]);
        }
        assert forall|i: int| 0 <= i < p.len() implies is_bark_level(band_level(#[trigger] p[i])) && p[i].0
            <= p[i].1 <= 99 && trim(p[i].3).len() <= 32 && !(band_level(p[i]) == "critical"@ && p[i].1 < 7) by {
            assert(p[i] == s[i]);
        }
        lemma_check_bands_complete(p);
        lemma_check_bands_trace(p);
        let done = check_bands(p)->Ok_0;
        assert(b == s[s.len() - 1]);
        assert(!(exists|j: int| 0 <= j < done.len() && (#[trigger] done[j]).2 == band_level(b))) by {
            assert forall|j: int| 0 <= j < done.len() implies (#[trigger] done[j]).2 != band_level(b) by {
                assert(p[j] == s[j]);
                assert(bands_compatible(s[j], s[s.len() - 1]));
            }
        }
        let out = (b.0, b.1, band_level(b), trim(b.3));
        assert(!(exists|j: int| 0 <= j < done.len() && ranges_overlap(#[trigger] done[j], out))) by {
            assert forall|j: int| 0 <= j < done.len() implies !ranges_overlap(#[trigger] done[j], out) by {
                assert(p[j] == s[j]);
                assert(bands_compatible(s[j], s[s.len() - 1]));
            }
        }
    }
}

/// Every accepted band comes from a requested band: the same minimum, its
/// level trimmed and lower-cased, its label trimmed, and its maximum as
/// requested; only a critical band asked to end below 7 is widened, to 99.
pub proof fn lemma_bands_keep_requested_values(bands: Seq<BandValue>)
    ensures
        bands_check(bands) is Ok ==> {
            let out = bands_check(bands)->Ok_0;
            forall|i: int|
                0 <= i < out.len() ==> exists|j: int|
                    0 <= j < bands.len() && (#[trigger] out[i]).0 == bands[j].0 && out[i].2 == ascii_lower(
                        trim(bands[j].2),
                    ) && out[i].3 == trim(bands[j].3) && (out[i].1 == bands[j].1 || (out[i].2
                        == "critical"@ && bands[j].1 < 7 && out[i].1 == 99))
        },
{
    if bands_check(bands) is Ok {
        let sorted = sort_by_min(bands);
        lemma_sort_by_min_members(bands);
        lemma_check_bands_trace(sorted);
        let out = bands_check(bands)->Ok_0;
        assert forall|i: int| 0 <= i < out.len() implies exists|j: int|
            0 <= j < bands.len() && (#[trigger] out[i]).0 == bands[j].0 && out[i].2 == ascii_lower(
                trim(bands[j].2),
            ) && out[i].3 == trim(bands[j].3) && (out[i].1 == bands[j].1 || (out[i].2 == "critical"@
                && bands[j].1 < 7 && out[i].1 == 99)) by {
            let j = choose|j: int| 0 <= j < bands.len() && #[trigger] sorted[i] == bands[j];
            assert(sorted[i] == bands[j]);
        }
    }
}

/// One to three requested bands, each with a Bark level (once trimmed and
/// lower-cased), an ordered range within 0..=99, a label of at most 32
/// characters once trimmed and no critical range ending below 7, with
/// pairwise different levels and ranges that share no value, are
/// accepted, each with its range unchanged.
pub proof fn lemma_valid_bands_accepted(bands: Seq<BandValue>)
    requires
        1 <= bands.len() <= 3,
        forall|i: int|
            0 <= i < bands.len() ==> is_bark_level(ascii_lower(trim((#[trigger] bands[i]).2)))
                && bands[i].0 <= bands[i].1 <= 99 && trim(bands[i].3).len() <= 32 && !(ascii_lower(
                trim(bands[i].2),
            ) == "critical"@ && bands[i].1 < 7),
        forall|i: int, j: int|
            0 <= i < j < bands.len() ==> ascii_lower(trim((#[trigger] bands[i]).2)) != ascii_lower(
                trim((#[trigger] bands[j]).2),
            ) && !(bands[i].0 <= bands[j].1 && bands[j].0 <= bands[i].1),
    ensures
        bands_check(bands) is Ok,
        bands_check(bands)->Ok_0.len() == bands.len(),
        forall|i: int|
            0 <= i < bands.len() ==> exists|j: int|
                0 <= j < bands.len() && (#[trigger] bands_check(bands)->Ok_0[i]) == (
                    bands[j].0,
                    bands[j].1,
                    ascii_lower(trim(bands[j].2)),
                    trim(bands[j].3),
                ),
{
    let sorted = sort_by_min(bands);
    assert forall|i: int, j: int| 0 <= i < j < bands.len() implies bands_compatible(
        #[trigger] bands[i],
        #[trigger] bands[j],
    ) by {}
    lemma_sort_by_min_members(bands);
    assert forall|i: int| 0 <= i < sorted.len() implies is_bark_level(band_level(#[trigger] sorted[i]))
        && sorted[i].0 <= sorted[i].1 <= 99 && trim(sorted[i].3).len() <= 32 && !(band_level(sorted[i])
        == "critical"@ && sorted[i].1 < 7) by {
        let j = choose|j: int| 0 <= j < bands.len() && #[trigger] sorted[i] == bands[j];
        assert(sorted[i] == bands[j]);
    }
    lemma_check_bands_complete(sorted);
    lemma_check_bands_trace(sorted);
    let out = bands_check(bands)->Ok_0;
    assert forall|i: int| 0 <= i < bands.len() implies exists|j: int|
        0 <= j < bands.len() && (#[trigger] out[i]) == (
            bands[j].0,
            bands[j].1,
            ascii_lower(trim(bands[j].2)),
            trim(bands[j].3),
        ) by {
        let j = choose|j: int| 0 <= j < bands.len() && #[trigger] sorted[i] == bands[j];
        assert(sorted[i] == bands[j]);
    }
}

/// The bands a request keeps are one to three well-formed bands in order of
/// their minimum: Bark levels, none twice, ordered ranges within 0..=99
/// that share no value, labels of at most 32 characters.
pub proof fn lemma_accepted_bands(bands: Seq<BandValue>)
    ensures
        bands_check(bands) matches Ok(out) ==> {
            &&& 1 <= out.len() <= MAX_NOTIFY_BANDS
            &&& out.len() == bands.len()
            &&& bands_well_formed(out)
            &&& sorted_by_min(out)
        },
{
    if 1 <= bands.len() <= MAX_NOTIFY_BANDS {
        let sorted = sort_by_min(bands);
        lemma_sort_by_min_sorted(bands);
        lemma_check_bands_well_formed(sorted);
        if let Ok(out) = check_bands(sorted) {
            assert forall|i: int, j: int| 0 <= i < j < out.len() implies (#[trigger] out[i]).0 <= (
            #[trigger] out[j]).0 by {
                assert(out[i].0 == sorted[i].0 && out[j].0 == sorted[j].0);
            }
        }
    }
}

fn copy_band(b: &NotificationBand) -> (r: NotificationBand)
    ensures
        r@ == b@,
{
    NotificationBand { min: b.min, max: b.max, level: b.level.clone(), label: b.label.clone() }
}

/// `b` inserted into the sorted list (see `insert_by_min`).
fn insert_band_by_min(sorted: Vec<NotificationBand>, b: NotificationBand) -> (r: Vec<NotificationBand>)
    ensures
        band_views(r@) == insert_by_min(band_views(sorted@), b@),
    decreases sorted@.len(),
{
    let mut sorted = sorted;
    let ghost before = band_views(sorted@);
    if sorted.len() == 0 || sorted[sorted.len() - 1].min <= b.min {
        sorted.push(b);
        assert(band_views(sorted@) =~= before.push(b@));
        sorted
    } else {
        let last = sorted.pop().unwrap();
        assert(band_views(sorted@) =~= before.drop_last());
        let mut rest = insert_band_by_min(sorted, b);
        rest.push(last);
        let ghost inner = insert_by_min(before.drop_last(), b@);
        assert(band_views(rest@) =~= inner.push(before.last()));
        rest
    }
}

/// The bands of a request, checked and normalised (see `bands_check`).
pub fn normalize_notify_bands(bands: &Vec<NotificationBand>) -> (r: Result<
    Vec<NotificationBand>,
    BandError,
>)
    ensures
        match r {
            Ok(v) => bands_check(band_views(bands@)) == Ok::<Seq<BandValue>, BandError>(band_views(v@)),
            Err(e) => bands_check(band_views(bands@)) == Err::<Seq<BandValue>, BandError>(e),
        },
{
    if bands.len() == 0 {
        return Err(BandError::Empty);
    }
    if bands.len() > MAX_NOTIFY_BANDS {
        return Err(BandError::TooMany);
    }
    let ghost input = band_views(bands@);
    // stable sort by minimum
    let mut sorted: Vec<NotificationBand> = Vec::new();
    let mut i: usize = 0;
    while i < bands.len()
        invariant
            input == band_views(bands@),
            i <= bands@.len(),
            band_views(sorted@) == sort_by_min(input.take(i as int)),
        decreases bands@.len() - i,
    {
        assert(input.take(i + 1).drop_last() =~= input.take(i as int));
        sorted = insert_band_by_min(sorted, copy_band(&bands[i]));
        i = i + 1;
    }
    assert(input.take(bands@.len() as int) =~= input);
    let ghost sorted_view = band_views(sorted@);
    let mut done: Vec<NotificationBand> = Vec::new();
    assert(sorted_view.take(0) =~= Seq::<BandValue>::empty());
    assert(band_views(done@) =~= Seq::<BandValue>::empty());
    let mut k: usize = 0;
    while k < sorted.len()
        invariant
            sorted_view == band_views(sorted@),
            sorted_view == sort_by_min(input),
            input == band_views(bands@),
            1 <= bands@.len() <= MAX_NOTIFY_BANDS,
            k <= sorted@.len(),
            check_bands(sorted_view.take(k as int)) == Ok::<Seq<BandValue>, BandError>(
                band_views(done@),
            ),
        decreases sorted@.len() - k,
    {
        assert(sorted_view.take(k + 1).drop_last() =~= sorted_view.take(k as int));
        let b = &sorted[k];
        assert(sorted_view[k as int] == b@);
        let ghost prev = band_views(done@);
        let level = ascii_lower_chars(&trim_chars(&chars_of(b.level.as_str())));
        let is_critical = chars_equal(&level, "critical");
        let label = trim_chars(&chars_of(b.label.as_str()));
        let max = if is_critical && b.max < 7 {
            MAX_BAND_INTENSITY
        } else {
            b.max
        };
        let ghost out = (b.min, max, level@, label@);
        assert(check_band(prev, b@) == (if !is_bark_level(level@) {
            Err(BandError::InvalidLevel)
        } else if exists|j: int| 0 <= j < prev.len() && (#[trigger] prev[j]).2 == level@ {
            Err(BandError::DuplicateLevel)
        } else if b.min > b.max || b.min > MAX_BAND_INTENSITY || b.max > MAX_BAND_INTENSITY {
            Err(BandError::InvalidRange)
        } else if label@.len() > MAX_BAND_LABEL_CHARS {
            Err(BandError::LabelTooLong)
        } else if exists|j: int| 0 <= j < prev.len() && ranges_overlap(#[trigger] prev[j], out) {
            Err(BandError::Overlap)
        } else {
            Ok::<BandValue, BandError>(out)
        }));
        let error = if !(is_critical || chars_equal(&level, "passive") || chars_equal(&level, "active")) {
            Some(BandError::InvalidLevel)
        } else if level_taken(&done, &level) {
            Some(BandError::DuplicateLevel)
        } else if b.min > b.max || b.min > MAX_BAND_INTENSITY || b.max > MAX_BAND_INTENSITY {
            Some(BandError::InvalidRange)
        } else if label.len() > MAX_BAND_LABEL_CHARS {
            Some(BandError::LabelTooLong)
        } else if range_taken(&done, b.min, max) {
            Some(BandError::Overlap)
        } else {
            None
        };
        if let Some(e) = error {
            proof {
                lemma_first_error(sorted_view, k as int, e);
            }
            return Err(e);
        }
        let accepted = NotificationBand {
            min: b.min,
            max,
            level: string_of(&level),
            label: string_of(&label),
        };
        done.push(accepted);
        assert(band_views(done@) =~= prev.push(out));
        k = k + 1;
    }
    assert(sorted_view.take(sorted@.len() as int) =~= sorted_view);
    Ok(done)
}

/// Whether an accepted band already has `level`.
fn level_taken(done: &Vec<NotificationBand>, level: &Vec<char>) -> (r: bool)
    ensures
        r == exists|j: int| 0 <= j < band_views(done@).len() && (#[trigger] band_views(done@)[j]).2 == level@,
{
    let ghost v = band_views(done@);
    let mut j: usize = 0;
    while j < done.len()
        invariant
            v == band_views(done@),
            j <= done@.len(),
            forall|q: int| 0 <= q < j ==> (#[trigger] v[q]).2 != level@,
        decreases done@.len() - j,
    {
        if chars_equal(level, done[j].level.as_str()) {
            assert(v[j as int].2 == level@);
            return true;
        }
        j = j + 1;
    }
    false
}

/// Whether an accepted band shares a value with the range `min..=max`.
fn range_taken(done: &Vec<NotificationBand>, min: u32, max: u32) -> (r: bool)
    ensures
        r == exists|j: int|
            0 <= j < band_views(done@).len() && #[trigger] band_views(done@)[j].0 <= max && min
                <= band_views(done@)[j].1,
{
    let ghost v = band_views(done@);
    let mut j: usize = 0;
    while j < done.len()
        invariant
            v == band_views(done@),
            j <= done@.len(),
            forall|q: int| 0 <= q < j ==> !(#[trigger] v[q].0 <= max && min <= v[q].1),
        decreases done@.len() - j,
    {
        if done[j].min <= max && min <= done[j].max {
            assert(v[j as int].0 <= max && min <= v[j as int].1);
            return true;
        }
        j = j + 1;
    }
    false
}

/// A refusal of the band at place `k`, after the earlier ones passed, is
/// the refusal of the whole list.
proof fn lemma_first_error(s: Seq<BandValue>, k: int, e: BandError)
    requires
        0 <= k < s.len(),
        check_bands(s.take(k)) is Ok,
        check_band(check_bands(s.take(k)).unwrap(), s[k]) == Err::<BandValue, BandError>(e),
    ensures
        check_bands(s) == Err::<Seq<BandValue>, BandError>(e),
    decreases s.len(),
{
    assert(s.take(k + 1).drop_last() =~= s.take(k));
    assert(s.take(k + 1).last() == s[k]);
    lemma_error_persists(s, k + 1, e);
}

/// A refusal of a prefix is the refusal of the whole list.
proof fn lemma_error_persists(s: Seq<BandValue>, k: int, e: BandError)
    requires
        0 <= k <= s.len(),
        check_bands(s.take(k)) == Err::<Seq<BandValue>, BandError>(e),
    ensures
        check_bands(s) == Err::<Seq<BandValue>, BandError>(e),
    decreases s.len() - k,
{
    if k == s.len() {
        assert(s.take(k) =~= s);
    } else {
        assert(s.take(k + 1).drop_last() =~= s.take(k));
        lemma_error_persists(s, k + 1, e);
    }
}

// ------------------------------------------------------------------
// A subscribe request
// ------------------------------------------------------------------

/// Why a subscribe request is refused.
#[derive(Debug, Clone, Copy, PartialEq, Eq)]
pub enum SubscribeError {
    BarkId(BarkIdError),
    BarkServer(BarkServerError),
    Locations(LocationError),
    /// No place is left to monitor.
    NoLocation,
    Bands(BandError),
}

/// The text shown for a refused subscribe request.
pub open spec fn subscribe_error_text(e: SubscribeError) -> Seq<char> {
    match e {
        SubscribeError::BarkId(x) => bark_id_error_text(x),
        SubscribeError::BarkServer(x) => bark_server_error_text(x),
        SubscribeError::Locations(x) => location_error_text(x),
        SubscribeError::NoLocation => "请至少添加一个有效监测地点"@,
        SubscribeError::Bands(x) => band_error_text(x),
    }
}

impl SubscribeError {
    /// The text shown to the user.
    pub fn message(&self) -> (r: String)
        ensures
            r@ == subscribe_error_text(*self),
    {
        match self {
            SubscribeError::BarkId(x) => x.message(),
            SubscribeError::BarkServer(x) => x.message(),
            SubscribeError::Locations(x) => x.message(),
            SubscribeError::NoLocation => String::from_str("请至少添加一个有效监测地点"),
            SubscribeError::Bands(x) => x.message(),
        }
    }
}

/// What a subscribe request keeps once every check passed: the server
/// address, the place names and the bands, normalised.
pub struct CheckedRequest {
    pub bark_server: String,
    pub location_names: Vec<String>,
    pub notify_bands: Vec<NotificationBand>,
}

/// A checked request as plain values.
pub type CheckedValue = (Seq<char>, Seq<Seq<char>>, Seq<BandValue>);

/// The checks of a subscribe request, in their order: the Bark key, the
/// server address, the places (at least one must be left), the bands. The
/// first that fails gives the error.
pub open spec fn subscribe_check(
    bark_id: Seq<char>,
    bark_server: Seq<char>,
    places: Seq<(Seq<char>, bool)>,
    bands: Seq<BandValue>,
) -> Result<CheckedValue, SubscribeError> {
    match bark_id_check(bark_id) {
        Err(e) => Err(SubscribeError::BarkId(e)),
        Ok(_) => match bark_server_check(bark_server) {
            Err(e) => Err(SubscribeError::BarkServer(e)),
            Ok(server) => match places_check(places) {
                Err(e) => Err(SubscribeError::Locations(e)),
                Ok(names) => if names.len() == 0 {
                    Err(SubscribeError::NoLocation)
                } else {
                    match bands_check(bands) {
                        Err(e) => Err(SubscribeError::Bands(e)),
                        Ok(b) => Ok((server, names, b)),
                    }
                },
            },
        },
    }
}

/// Checks a subscribe request (see `subscribe_check`). The places are the
/// request's list of names with whether each has valid coordinates, or,
/// when the list is empty, the request's own name and coordinates.
pub fn check_subscribe_request(
    bark_id: &str,
    bark_server: &str,
    fallback_name: &str,
    fallback_valid: bool,
    names: &Vec<String>,
    coordinates_valid: &Vec<bool>,
    bands: &Vec<NotificationBand>,
) -> (r: Result<CheckedRequest, SubscribeError>)
    requires
        names@.len() == coordinates_valid@.len(),
    ensures
        ({
            let expected = subscribe_check(
                bark_id@,
                bark_server@,
                listed_places(fallback_name@, fallback_valid, texts_of(names@), coordinates_valid@),
                band_views(bands@),
            );
            match r {
                Ok(c) => expected == Ok::<CheckedValue, SubscribeError>(
                    (c.bark_server@, texts_of(c.location_names@), band_views(c.notify_bands@)),
                ),
                Err(e) => expected == Err::<CheckedValue, SubscribeError>(e),
            }
        }),
{
    match validate_bark_id(bark_id) {
        Ok(()) => {},
        Err(e) => return Err(SubscribeError::BarkId(e)),
    }
    let server = match normalize_bark_server(bark_server) {
        Ok(s) => s,
        Err(e) => return Err(SubscribeError::BarkServer(e)),
    };
    let location_names = match normalize_locations(fallback_name, fallback_valid, names, coordinates_valid) {
        Ok(v) => v,
        Err(e) => return Err(SubscribeError::Locations(e)),
    };
    if location_names.len() == 0 {
        return Err(SubscribeError::NoLocation);
    }
    let notify_bands = match normalize_notify_bands(bands) {
        Ok(v) => v,
        Err(e) => return Err(SubscribeError::Bands(e)),
    };
    Ok(CheckedRequest { bark_server: server, location_names, notify_bands })
}

} // verus!
