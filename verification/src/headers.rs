//! The `Headers` collection of the fetch API: header-name and header-value
//! validation, value normalization, and the ordered list of name/value pairs.
use vstd::prelude::*;
use vstd::utf8::{decode_utf8, valid_utf8};

use crate::text::{
    char_seq_less, chars_of, lemma_less_asymmetric, lemma_less_irreflexive,
    lemma_not_less_transitive, from_utf8_lossy, join, push_char, str_less, to_lowercase,
    ascii_lowercase, is_ascii_text,
    unicode_lowercase, utf8_lossy_text,
};

verus! {

/// A character that may appear in a header name (an RFC 7230 `tchar`).
pub open spec fn is_token_char(c: char) -> bool {
    ||| c == '!' || c == '#' || c == '$' || c == '%' || c == '&' || c == '\'' || c == '*'
    ||| c == '+' || c == '-' || c == '.' || c == '^' || c == '_' || c == '`' || c == '|'
    ||| c == '~'
    ||| ('0' as u32 <= c as u32 && c as u32 <= '9' as u32)
    ||| ('A' as u32 <= c as u32 && c as u32 <= 'Z' as u32)
    ||| ('a' as u32 <= c as u32 && c as u32 <= 'z' as u32)
}

/// A valid header name: non-empty and made of token characters only.
pub open spec fn valid_header_name(s: Seq<char>) -> bool {
    s.len() > 0 && forall|i: int| 0 <= i < s.len() ==> #[trigger] is_token_char(s[i])
}

/// A character that may appear in a header value: HTAB, SP, a visible ASCII
/// character, form feed or a no-break space.
pub open spec fn is_value_char(c: char) -> bool {
    ||| c == '\t'
    ||| c == ' '
    ||| (0x21 <= c as u32 && c as u32 <= 0x7e)
    ||| c == '\u{0C}'
    ||| c == '\u{A0}'
}

/// A valid header value: every character is allowed in a value.
pub open spec fn valid_header_value(s: Seq<char>) -> bool {
    forall|i: int| 0 <= i < s.len() ==> #[trigger] is_value_char(s[i])
}

/// Optional whitespace inside a header value: SP or HTAB.
pub open spec fn is_ws(c: char) -> bool {
    c == ' ' || c == '\t'
}

/// CR or LF.
pub open spec fn is_line_break(c: char) -> bool {
    c == '\r' || c == '\n'
}

/// `s` with every CR and LF removed.
pub open spec fn without_line_breaks(s: Seq<char>) -> Seq<char>
    decreases s.len(),
{
    if s.len() == 0 {
        s
    } else if is_line_break(s.last()) {
        without_line_breaks(s.drop_last())
    } else {
        without_line_breaks(s.drop_last()).push(s.last())
    }
}

/// `s` without its leading SP/HTAB characters.
pub open spec fn trim_start_ws(s: Seq<char>) -> Seq<char>
    decreases s.len(),
{
    if s.len() > 0 && is_ws(s[0]) {
        trim_start_ws(s.drop_first())
    } else {
        s
    }
}

/// `s` without its trailing SP/HTAB characters.
pub open spec fn trim_end_ws(s: Seq<char>) -> Seq<char>
    decreases s.len(),
{
    if s.len() > 0 && is_ws(s.last()) {
        trim_end_ws(s.drop_last())
    } else {
        s
    }
}

/// Whether the character at `i` survives whitespace collapsing: every
/// character does, except a whitespace character directly followed by
/// another one (so each run of whitespace keeps only its last character).
pub open spec fn kept_after_collapse(s: Seq<char>, i: int) -> bool {
    !(is_ws(s[i]) && i + 1 < s.len() && is_ws(s[i + 1]))
}

/// The characters among the first `n` of `s` that survive whitespace collapsing.
pub open spec fn collapse_ws_prefix(s: Seq<char>, n: int) -> Seq<char>
    decreases n,
{
    if n <= 0 {
        Seq::empty()
    } else if kept_after_collapse(s, n - 1) {
        collapse_ws_prefix(s, n - 1).push(s[n - 1])
    } else {
        collapse_ws_prefix(s, n - 1)
    }
}

/// `s` with each run of SP/HTAB replaced by the last character of the run.
pub open spec fn collapse_ws(s: Seq<char>) -> Seq<char> {
    collapse_ws_prefix(s, s.len() as int)
}

/// A normalized header value: line breaks dropped (an obs-fold becomes
/// plain whitespace), leading and trailing whitespace trimmed, and inner
/// runs of whitespace collapsed to their last character.
pub open spec fn normalize_header_value(s: Seq<char>) -> Seq<char> {
    collapse_ws(trim_end_ws(trim_start_ws(without_line_breaks(s))))
}

fn is_token_byte_char(c: char) -> (r: bool)
    ensures
        r == is_token_char(c),
{
    c == '!' || c == '#' || c == '$' || c == '%' || c == '&' || c == '\'' || c == '*' || c
        == '+' || c == '-' || c == '.' || c == '^' || c == '_' || c == '`' || c == '|' || c
        == '~' || ('0' <= c && c <= '9') || ('A' <= c && c <= 'Z') || ('a' <= c && c <= 'z')
}

/// Whether `name` is a valid header name.
pub fn is_http_header_name(name: &str) -> (r: bool)
    ensures
        r == valid_header_name(name@),
{
    if name.is_empty() {
        return false;
    }
    let chars = chars_of(name);
    let mut i: usize = 0;
    while i < chars.len()
        invariant
            chars@ == name@,
            i <= chars.len(),
            forall|j: int| 0 <= j < i ==> #[trigger] is_token_char(chars@[j]),
        decreases chars.len() - i,
    {
        if !is_token_byte_char(chars[i]) {
            return false;
        }
        i += 1;
    }
    true
}

fn is_value_char_exec(c: char) -> (r: bool)
    ensures
        r == is_value_char(c),
{
    c == '\t' || c == ' ' || ('\u{21}' <= c && c <= '\u{7E}') || c == '\u{0C}' || c == '\u{A0}'
}

/// Whether `value` is a valid header value.
pub fn is_http_header_value(value: &str) -> (r: bool)
    ensures
        r == valid_header_value(value@),
{
    let chars = chars_of(value);
    let mut i: usize = 0;
    while i < chars.len()
        invariant
            chars@ == value@,
            i <= chars.len(),
            forall|j: int| 0 <= j < i ==> #[trigger] is_value_char(chars@[j]),
        decreases chars.len() - i,
    {
        if !is_value_char_exec(chars[i]) {
            return false;
        }
        i += 1;
    }
    true
}


/// Normalizes a header value in place: CR and LF are dropped (so an
/// obs-fold counts as whitespace), leading and trailing SP/HTAB are trimmed
/// and each inner run of SP/HTAB is collapsed to its last character.
pub fn normalize_header_value_inplace(text: &mut String)
    ensures
        final(text)@ == normalize_header_value(old(text)@),
{
    let input = chars_of(text.as_str());
    let ghost s = input@;

    // Drop the line breaks.
    let mut kept: Vec<char> = Vec::new();
    let mut i: usize = 0;
    while i < input.len()
        invariant
            input@ == s,
            i <= input.len(),
            kept@ == without_line_breaks(s.take(i as int)),
        decreases input.len() - i,
    {
        let c = input[i];
        assert(s.take(i + 1).drop_last() == s.take(i as int));
        if !(c == '\r' || c == '\n') {
            kept.push(c);
        }
        i += 1;
    }
    assert(s.take(s.len() as int) == s);
    let ghost t = kept@;
    assert(t.subrange(0, t.len() as int) == t);

    // Trim the leading whitespace.
    let mut start: usize = 0;
    while start < kept.len() && (kept[start] == ' ' || kept[start] == '\t')
        invariant
            kept@ == t,
            start <= kept.len(),
            trim_start_ws(t.subrange(start as int, t.len() as int)) == trim_start_ws(t),
        decreases kept.len() - start,
    {
        assert(t.subrange(start as int, t.len() as int).drop_first() == t.subrange(
            start + 1,
            t.len() as int,
        ));
        start += 1;
    }
    let ghost u = t.subrange(start as int, t.len() as int);
    assert(trim_start_ws(t) == u);

    // Trim the trailing whitespace.
    let mut end: usize = kept.len();
    while end > start && (kept[end - 1] == ' ' || kept[end - 1] == '\t')
        invariant
            kept@ == t,
            start <= end <= kept.len(),
            u == t.subrange(start as int, t.len() as int),
            trim_end_ws(t.subrange(start as int, end as int)) == trim_end_ws(u),
        decreases end - start,
    {
        assert(t.subrange(start as int, end as int).drop_last() == t.subrange(
            start as int,
            end - 1,
        ));
        end -= 1;
    }
    let ghost w = t.subrange(start as int, end as int);
    assert(trim_end_ws(u) == w);

    // Collapse the inner runs of whitespace.
    let mut out = String::new();
    let mut k: usize = start;
    while k < end
        invariant
            kept@ == t,
            start <= k <= end <= kept.len(),
            w == t.subrange(start as int, end as int),
            out@ == collapse_ws_prefix(w, k - start),
        decreases end - k,
    {
        let c = kept[k];
        let ws_here = c == ' ' || c == '\t';
        let ws_next = k + 1 < end && (kept[k + 1] == ' ' || kept[k + 1] == '\t');
        assert(w[k - start] == c);
        if !(ws_here && ws_next) {
            push_char(&mut out, c);
        }
        k += 1;
    }
    *text = out;
}

/// Why a header operation was refused.
#[derive(Debug, Clone, Copy, PartialEq, Eq, Structural)]
pub enum HeaderError {
    /// The (lowercased) name is not a valid header name.
    InvalidKey,
    /// The (normalized) value is not a valid header value.
    InvalidValue,
    /// An entry of an initializer array does not hold a name/value pair.
    NotPaired,
}

impl HeaderError {
    /// The message of the `TypeError` that reports this error.
    pub fn message(&self) -> (r: &'static str)
        ensures
            r@ == (match *self {
                HeaderError::InvalidKey => "Invalid key"@,
                HeaderError::InvalidValue => "Invalid value of key"@,
                HeaderError::NotPaired => "Header arrays are not paired"@,
            }),
    {
        match self {
            HeaderError::InvalidKey => "Invalid key",
            HeaderError::InvalidValue => "Invalid value of key",
            HeaderError::NotPaired => "Header arrays are not paired",
        }
    }
}

/// The name of the header whose values are kept as separate entries.
pub open spec fn set_cookie_name() -> Seq<char> {
    seq!['s', 'e', 't', '-', 'c', 'o', 'o', 'k', 'i', 'e']
}

/// The name of the header whose combined values are separated by "; ".
pub open spec fn cookie_name() -> Seq<char> {
    seq!['c', 'o', 'o', 'k', 'i', 'e']
}

/// The separator between the combined values of one header name.
pub open spec fn separator_for(k: Seq<char>) -> Seq<char> {
    if k == cookie_name() {
        seq![';', ' ']
    } else {
        seq![',', ' ']
    }
}

/// The separator between the `set-cookie` values that a lookup joins.
pub open spec fn list_separator() -> Seq<char> {
    seq![',', ' ']
}

/// The abstract contents of a header list: its (name, value) pairs in order.
pub type HeaderEntries = Seq<(Seq<char>, Seq<char>)>;

/// The index of the first entry named `k`, if any.
pub open spec fn key_position(h: HeaderEntries, k: Seq<char>) -> Option<int>
    decreases h.len(),
{
    if h.len() == 0 {
        None
    } else {
        match key_position(h.drop_last(), k) {
            Some(i) => Some(i),
            None => if h.last().0 == k {
                Some(h.len() - 1)
            } else {
                None
            },
        }
    }
}

/// Whether some entry is named `k`.
pub open spec fn contains_key(h: HeaderEntries, k: Seq<char>) -> bool {
    exists|i: int| 0 <= i < h.len() && #[trigger] h[i].0 == k
}

/// The values of the entries named `k`, in order.
pub open spec fn values_for_key(h: HeaderEntries, k: Seq<char>) -> Seq<Seq<char>>
    decreases h.len(),
{
    if h.len() == 0 {
        Seq::empty()
    } else if h.last().0 == k {
        values_for_key(h.drop_last(), k).push(h.last().1)
    } else {
        values_for_key(h.drop_last(), k)
    }
}

/// The entries not named `k`, in order.
pub open spec fn without_key(h: HeaderEntries, k: Seq<char>) -> HeaderEntries
    decreases h.len(),
{
    if h.len() == 0 {
        h
    } else if h.last().0 == k {
        without_key(h.drop_last(), k)
    } else {
        without_key(h.drop_last(), k).push(h.last())
    }
}

/// The entries after appending value `v` under the (normalized) name `k`:
/// a `set-cookie` value gets an entry of its own; any other value is added
/// to the first entry of that name, after the separator, or gets a new
/// entry at the end when there is none.
pub open spec fn appended(h: HeaderEntries, k: Seq<char>, v: Seq<char>) -> HeaderEntries {
    if k == set_cookie_name() {
        h.push((k, v))
    } else {
        match key_position(h, k) {
            Some(i) => h.update(i, (k, h[i].1 + separator_for(k) + v)),
            None => h.push((k, v)),
        }
    }
}

/// The entries after setting name `k` to value `v`: every `set-cookie`
/// entry is replaced by one new entry at the end; for any other name the
/// first entry of that name takes the value, or a new entry is added at the
/// end when there is none.
pub open spec fn assigned(h: HeaderEntries, k: Seq<char>, v: Seq<char>) -> HeaderEntries {
    if k == set_cookie_name() {
        without_key(h, k).push((k, v))
    } else {
        match key_position(h, k) {
            Some(i) => h.update(i, (k, v)),
            None => h.push((k, v)),
        }
    }
}

/// What a lookup of name `k` answers: for `set-cookie`, all its values
/// joined by ", " (none when there is no such entry); for any other name,
/// the value of its first entry.
pub open spec fn lookup(h: HeaderEntries, k: Seq<char>) -> Option<Seq<char>> {
    if k == set_cookie_name() {
        let vs = values_for_key(h, k);
        if vs.len() == 0 {
            None
        } else {
            Some(join(vs, list_separator()))
        }
    } else {
        first_value(h, k)
    }
}

/// The value of the first entry named `k`, if any.
pub open spec fn first_value(h: HeaderEntries, k: Seq<char>) -> Option<Seq<char>> {
    match key_position(h, k) {
        Some(i) => Some(h[i].1),
        None => None,
    }
}

/// The key under which a name given by the caller is stored and looked up.
pub open spec fn header_key(name: Seq<char>) -> Seq<char> {
    unicode_lowercase(name)
}

/// The outcome owed for a name and a value given by the caller: the error,
/// if any, that refuses them.
pub open spec fn name_value_error(name: Seq<char>, value: Seq<char>) -> Option<HeaderError> {
    entry_error(header_key(name), value)
}

/// The error, if any, that refuses an already lowercased name and a value.
pub open spec fn entry_error(key: Seq<char>, value: Seq<char>) -> Option<HeaderError> {
    if !valid_header_name(key) {
        Some(HeaderError::InvalidKey)
    } else if !valid_header_value(normalize_header_value(value)) {
        Some(HeaderError::InvalidValue)
    } else {
        None
    }
}

/// The character sequences of a sequence of string slices.
pub open spec fn str_views(v: Seq<&str>) -> Seq<Seq<char>> {
    v.map_values(|s: &str| s@)
}

/// The character sequences of a sequence of pairs of string slices.
pub open spec fn pair_views(v: Seq<(&str, &str)>) -> HeaderEntries {
    v.map_values(|p: (&str, &str)| (p.0@, p.1@))
}

/// The names of the entries, in order.
pub open spec fn names_of(h: HeaderEntries) -> Seq<Seq<char>> {
    h.map_values(|e: (Seq<char>, Seq<char>)| e.0)
}

/// The values of the entries, in order.
pub open spec fn values_of(h: HeaderEntries) -> Seq<Seq<char>> {
    h.map_values(|e: (Seq<char>, Seq<char>)| e.1)
}

/// The abstract pairs of a vector of owned pairs.
pub open spec fn entries_view(v: Seq<(String, String)>) -> HeaderEntries {
    v.map_values(|e: (String, String)| (e.0@, e.1@))
}

/// One entry of an initializer array, as the header-list constructor reads
/// it: a name/value pair (the name as given, the value coerced to a
/// string), or an entry whose length is odd.
pub enum HeaderInit {
    /// A name and a value.
    Pair(String, String),
    /// An entry that does not hold a name/value pair.
    Unpaired,
}

/// The entries that an initializer array yields, before they are sorted:
/// pairs are taken in order, names lowercased, and values combined as
/// `appended` combines them (values are not normalized); the first bad entry
/// refuses the whole array.
pub open spec fn init_entries(es: Seq<HeaderInit>) -> Result<HeaderEntries, HeaderError>
    decreases es.len(),
{
    if es.len() == 0 {
        Ok(Seq::empty())
    } else {
        match init_entries(es.drop_last()) {
            Err(e) => Err(e),
            Ok(h) => match es.last() {
                HeaderInit::Unpaired => Err(HeaderError::NotPaired),
                HeaderInit::Pair(k, v) => if !valid_header_name(header_key(k@)) {
                    Err(HeaderError::InvalidKey)
                } else if !valid_header_value(v@) {
                    Err(HeaderError::InvalidValue)
                } else {
                    Ok(appended(h, header_key(k@), v@))
                },
            },
        }
    }
}

/// Where a stable insertion puts an entry named `k` into `r`: after the last
/// entry whose name is not greater than `k`, scanning from the end.
pub open spec fn insertion_index(r: HeaderEntries, k: Seq<char>) -> int
    decreases r.len(),
{
    if r.len() == 0 {
        0
    } else if char_seq_less(k, r.last().0) {
        insertion_index(r.drop_last(), k)
    } else {
        r.len() as int
    }
}

/// The entries stably sorted by name: entries with equal names keep their
/// relative order.
pub open spec fn sorted_by_name(h: HeaderEntries) -> HeaderEntries
    decreases h.len(),
{
    if h.len() == 0 {
        h
    } else {
        let r = sorted_by_name(h.drop_last());
        r.insert(insertion_index(r, h.last().0), h.last())
    }
}

/// The entries that a string-keyed map yields, in the map's order: entries
/// whose name is not a valid header name are dropped, names are lowercased
/// and values normalized.
pub open spec fn map_entries(m: HeaderEntries) -> HeaderEntries
    decreases m.len(),
{
    if m.len() == 0 {
        m
    } else if valid_header_name(m.last().0) {
        map_entries(m.drop_last()).push(
            (header_key(m.last().0), normalize_header_value(m.last().1)),
        )
    } else {
        map_entries(m.drop_last())
    }
}

/// The entries of a `HeaderMap`, in its iteration order: each name (as its
/// lowercase text) once per associated value (as its raw bytes).
pub uninterp spec fn header_map_entries(m: hyper::HeaderMap) -> Seq<(Seq<char>, Seq<u8>)>;

/// The entries that a `HeaderMap` yields: each value decoded as lossy UTF-8.
pub open spec fn decoded_entries(m: Seq<(Seq<char>, Seq<u8>)>) -> HeaderEntries {
    m.map_values(|e: (Seq<char>, Seq<u8>)| (e.0, utf8_lossy_text(e.1)))
}

/// `HeaderMap::iter`: the map's pairs in its iteration order, each name
/// converted by `HeaderName::as_str` and each value by
/// `HeaderValue::as_bytes`. The contract claims only that the result is the
/// named sequence of the map's entries; the crate documents that order as
/// arbitrary but the same for the same map and crate version, and yields a
/// name once per value. It does not state which pairs the map holds.
#[verifier::external_body]
fn header_map_pairs(m: &hyper::HeaderMap) -> (r: Vec<(String, Vec<u8>)>)
    ensures
        r@.map_values(|p: (String, Vec<u8>)| (p.0@, p.1@)) == header_map_entries(*m),
{
    m.iter().map(|(n, v)| (n.as_str().to_owned(), v.as_bytes().to_vec())).collect()
}

/// Declares `hyper::HeaderMap` (the `http` crate's header multimap) so that
/// it can stand in signatures; nothing inside it is visible.
#[verifier::external_type_specification]
#[verifier::external_body]
#[verifier::reject_recursive_types(T)]
pub struct ExHeaderMap<T>(hyper::HeaderMap<T>);

/// Declares `hyper::header::HeaderValue`, the value type of a `HeaderMap`;
/// nothing inside it is visible.
#[verifier::external_type_specification]
#[verifier::external_body]
pub struct ExHeaderValue(hyper::header::HeaderValue);

// ---------------------------------------------------------------------------
// Laws of the header list.
// ---------------------------------------------------------------------------

proof fn lemma_first_value_push(x: HeaderEntries, e: (Seq<char>, Seq<char>), k: Seq<char>)
    ensures
        first_value(x.push(e), k) == (if first_value(x, k) is Some {
            first_value(x, k)
        } else if e.0 == k {
            Some(e.1)
        } else {
            None
        }),
        values_for_key(x.push(e), k) == (if e.0 == k {
            values_for_key(x, k).push(e.1)
        } else {
            values_for_key(x, k)
        }),
{
    assert(x.push(e).drop_last() == x);
    lemma_key_position(x, k);
    match key_position(x, k) {
        Some(i) => {
            assert(x.push(e)[i] == x[i]);
        },
        None => {},
    }
}

/// A value is the first for its name exactly when the name occurs.
proof fn lemma_occurrence(h: HeaderEntries, k: Seq<char>)
    ensures
        contains_key(h, k) <==> key_position(h, k) is Some,
        contains_key(h, k) <==> values_for_key(h, k).len() > 0,
    decreases h.len(),
{
    lemma_key_position(h, k);
    if h.len() > 0 {
        lemma_occurrence(h.drop_last(), k);
        if contains_key(h.drop_last(), k) {
            let i = choose|i: int| 0 <= i < h.drop_last().len() && #[trigger] h.drop_last()[i].0 == k;
            assert(h[i] == h.drop_last()[i]);
        }
        if contains_key(h, k) {
            let i = choose|i: int| 0 <= i < h.len() && #[trigger] h[i].0 == k;
            if i < h.len() - 1 {
                assert(h.drop_last()[i] == h[i]);
            }
        }
        if h.last().0 == k {
            assert(h[h.len() - 1].0 == k);
        }
    }
}

/// Removing the entries of one name changes nothing that another name
/// answers.
proof fn lemma_without_other_key(h: HeaderEntries, k: Seq<char>, k2: Seq<char>)
    requires
        k != k2,
    ensures
        first_value(without_key(h, k), k2) == first_value(h, k2),
        values_for_key(without_key(h, k), k2) == values_for_key(h, k2),
    decreases h.len(),
{
    if h.len() > 0 {
        lemma_without_other_key(h.drop_last(), k, k2);
        lemma_first_value_push(h.drop_last(), h.last(), k2);
        assert(h.drop_last().push(h.last()) == h);
        if h.last().0 != k {
            lemma_first_value_push(without_key(h.drop_last(), k), h.last(), k2);
        }
    }
}

/// Removing the entries of a name leaves none of it.
proof fn lemma_without_key_absent(h: HeaderEntries, k: Seq<char>)
    ensures
        !contains_key(without_key(h, k), k),
    decreases h.len(),
{
    if h.len() > 0 {
        lemma_without_key_absent(h.drop_last(), k);
        let w = without_key(h.drop_last(), k);
        if h.last().0 != k {
            assert forall|j: int| 0 <= j < w.push(h.last()).len() implies #[trigger] w.push(
                h.last(),
            )[j].0 != k by {
                if j < w.len() {
                    assert(w.push(h.last())[j] == w[j]);
                }
            }
        }
    }
}

/// Replacing the entry at `i` by one of another name, when neither is named
/// `k2`, changes nothing that `k2` answers.
proof fn lemma_update_other_key(
    h: HeaderEntries,
    i: int,
    e: (Seq<char>, Seq<char>),
    k2: Seq<char>,
)
    requires
        0 <= i < h.len(),
        h[i].0 != k2,
        e.0 != k2,
    ensures
        first_value(h.update(i, e), k2) == first_value(h, k2),
        values_for_key(h.update(i, e), k2) == values_for_key(h, k2),
    decreases h.len(),
{
    let u = h.update(i, e);
    lemma_key_position(h, k2);
    lemma_key_position(u, k2);
    match key_position(h, k2) {
        Some(p) => {
            assert(u[p].0 == k2);
            match key_position(u, k2) {
                Some(q) => {
                    if q < p {
                        assert(h[q].0 == u[q].0);
                    }
                    if p < q {
                        assert(u[p].0 != k2);
                    }
                },
                None => {
                    assert(u[p].0 != k2);
                },
            }
        },
        None => {
            match key_position(u, k2) {
                Some(q) => {
                    assert(h[q].0 == u[q].0);
                },
                None => {},
            }
        },
    }
    if i < h.len() - 1 {
        assert(u.drop_last() == h.drop_last().update(i, e));
        lemma_update_other_key(h.drop_last(), i, e, k2);
        assert(u.last() == h.last());
    } else {
        assert(u.drop_last() == h.drop_last());
    }
}

/// After `set(k, v)`, looking up `k` gives `v`.
pub proof fn law_set_then_get(h: HeaderEntries, k: Seq<char>, v: Seq<char>)
    ensures
        lookup(assigned(h, k, v), k) == Some(v),
{
    if k == set_cookie_name() {
        lemma_without_key_absent(h, k);
        lemma_occurrence(without_key(h, k), k);
        lemma_first_value_push(without_key(h, k), (k, v), k);
        assert(seq![v].drop_last() == Seq::<Seq<char>>::empty());
        assert(values_for_key(without_key(h, k), k) == Seq::<Seq<char>>::empty());
        assert(values_for_key(without_key(h, k), k).push(v) == seq![v]);
    } else {
        lemma_key_position(h, k);
        let a = assigned(h, k, v);
        lemma_key_position(a, k);
        match key_position(h, k) {
            Some(i) => {
                assert(a[i].0 == k);
                match key_position(a, k) {
                    Some(q) => {
                        if q < i {
                            assert(a[q] == h[q]);
                        }
                        if i < q {
                            assert(a[i].0 != k);
                        }
                    },
                    None => {
                        assert(a[i].0 != k);
                    },
                }
            },
            None => {
                lemma_first_value_push(h, (k, v), k);
            },
        }
    }
}

/// `set(k, v)` changes nothing that another name answers.
pub proof fn law_set_keeps_other_names(
    h: HeaderEntries,
    k: Seq<char>,
    v: Seq<char>,
    k2: Seq<char>,
)
    requires
        k != k2,
    ensures
        lookup(assigned(h, k, v), k2) == lookup(h, k2),
        contains_key(assigned(h, k, v), k2) == contains_key(h, k2),
{
    if k == set_cookie_name() {
        lemma_without_other_key(h, k, k2);
        lemma_first_value_push(without_key(h, k), (k, v), k2);
    } else {
        lemma_key_position(h, k);
        match key_position(h, k) {
            Some(i) => {
                lemma_update_other_key(h, i, (k, v), k2);
            },
            None => {
                lemma_first_value_push(h, (k, v), k2);
            },
        }
    }
    lemma_occurrence(h, k2);
    lemma_occurrence(assigned(h, k, v), k2);
}

/// After `append(k, v)`, looking up `k` gives `v` when nothing was stored
/// under `k`, and otherwise what was stored, the separator of `k`, and `v`.
pub proof fn law_append_then_get(h: HeaderEntries, k: Seq<char>, v: Seq<char>)
    ensures
        lookup(appended(h, k, v), k) == Some(
            match lookup(h, k) {
                Some(old) => old + separator_for(k) + v,
                None => v,
            },
        ),
{
    if k == set_cookie_name() {
        lemma_first_value_push(h, (k, v), k);
        let vs = values_for_key(h, k);
        assert(vs.push(v).drop_last() == vs);
        assert(separator_for(k) == list_separator());
    } else {
        lemma_key_position(h, k);
        let a = appended(h, k, v);
        lemma_key_position(a, k);
        match key_position(h, k) {
            Some(i) => {
                assert(a[i].0 == k);
                match key_position(a, k) {
                    Some(q) => {
                        if q < i {
                            assert(a[q] == h[q]);
                        }
                        if i < q {
                            assert(a[i].0 != k);
                        }
                    },
                    None => {
                        assert(a[i].0 != k);
                    },
                }
            },
            None => {
                lemma_first_value_push(h, (k, v), k);
            },
        }
    }
}

/// `append(k, v)` changes nothing that another name answers.
pub proof fn law_append_keeps_other_names(
    h: HeaderEntries,
    k: Seq<char>,
    v: Seq<char>,
    k2: Seq<char>,
)
    requires
        k != k2,
    ensures
        lookup(appended(h, k, v), k2) == lookup(h, k2),
        contains_key(appended(h, k, v), k2) == contains_key(h, k2),
{
    if k == set_cookie_name() {
        lemma_first_value_push(h, (k, v), k2);
    } else {
        lemma_key_position(h, k);
        match key_position(h, k) {
            Some(i) => {
                lemma_update_other_key(h, i, (k, h[i].1 + separator_for(k) + v), k2);
            },
            None => {
                lemma_first_value_push(h, (k, v), k2);
            },
        }
    }
    lemma_occurrence(h, k2);
    lemma_occurrence(appended(h, k, v), k2);
}

/// After `delete(k)`, nothing is stored under `k`, and every other name
/// answers as before.
pub proof fn law_delete(h: HeaderEntries, k: Seq<char>, k2: Seq<char>)
    ensures
        !contains_key(without_key(h, k), k),
        lookup(without_key(h, k), k) is None,
        k2 != k ==> lookup(without_key(h, k), k2) == lookup(h, k2),
        k2 != k ==> contains_key(without_key(h, k), k2) == contains_key(h, k2),
{
    lemma_without_key_absent(h, k);
    lemma_occurrence(without_key(h, k), k);
    if k2 != k {
        lemma_without_other_key(h, k, k2);
        lemma_occurrence(h, k2);
        lemma_occurrence(without_key(h, k), k2);
    }
}

/// `has(k)` answers whether `get(k)` finds a value.
pub proof fn law_has_iff_get(h: HeaderEntries, k: Seq<char>)
    ensures
        contains_key(h, k) <==> lookup(h, k) is Some,
{
    lemma_occurrence(h, k);
}

/// After `append` of a `set-cookie` value, `getSetCookie` lists it last,
/// after the values it listed before.
pub proof fn law_append_set_cookie(h: HeaderEntries, v: Seq<char>)
    ensures
        values_for_key(appended(h, set_cookie_name(), v), set_cookie_name()) == values_for_key(
            h,
            set_cookie_name(),
        ).push(v),
{
    lemma_first_value_push(h, (set_cookie_name(), v), set_cookie_name());
}

/// Entries ordered by name: no entry's name is less than an earlier one's.
pub open spec fn ordered_by_name(h: HeaderEntries) -> bool {
    forall|i: int, j: int| 0 <= i < j < h.len() ==> !char_seq_less(#[trigger] h[j].0, #[trigger] h[i].0)
}

proof fn lemma_insertion_index(r: HeaderEntries, k: Seq<char>)
    ensures
        0 <= insertion_index(r, k) <= r.len(),
        forall|i: int| insertion_index(r, k) <= i < r.len() ==> char_seq_less(k, #[trigger] r[i].0),
        insertion_index(r, k) > 0 ==> !char_seq_less(k, r[insertion_index(r, k) - 1].0),
    decreases r.len(),
{
    if r.len() > 0 && char_seq_less(k, r.last().0) {
        lemma_insertion_index(r.drop_last(), k);
        assert forall|i: int| insertion_index(r, k) <= i < r.len() implies char_seq_less(
            k,
            #[trigger] r[i].0,
        ) by {
            if i < r.len() - 1 {
                assert(r.drop_last()[i] == r[i]);
            }
        }
        if insertion_index(r, k) > 0 {
            assert(r.drop_last()[insertion_index(r, k) - 1] == r[insertion_index(r, k) - 1]);
        }
    }
}

proof fn lemma_values_for_key_concat(a: HeaderEntries, b: HeaderEntries, k: Seq<char>)
    ensures
        values_for_key(a + b, k) == values_for_key(a, k) + values_for_key(b, k),
    decreases b.len(),
{
    if b.len() == 0 {
        assert(a + b =~= a);
        assert(values_for_key(a, k) + values_for_key(b, k) =~= values_for_key(a, k));
    } else {
        lemma_values_for_key_concat(a, b.drop_last(), k);
        assert((a + b).drop_last() =~= a + b.drop_last());
        assert((a + b).last() == b.last());
        if b.last().0 == k {
            assert(values_for_key(a, k) + values_for_key(b, k) =~= (values_for_key(a, k)
                + values_for_key(b.drop_last(), k)).push(b.last().1));
        }
    }
}

proof fn lemma_values_for_absent_key(x: HeaderEntries, k: Seq<char>)
    requires
        forall|i: int| 0 <= i < x.len() ==> #[trigger] x[i].0 != k,
    ensures
        values_for_key(x, k) == Seq::<Seq<char>>::empty(),
    decreases x.len(),
{
    if x.len() > 0 {
        assert forall|i: int| 0 <= i < x.len() - 1 implies #[trigger] x.drop_last()[i].0 != k by {
            assert(x.drop_last()[i] == x[i]);
        }
        lemma_values_for_absent_key(x.drop_last(), k);
        assert(x[x.len() - 1].0 != k);
    }
}

/// Sorting the entries of an initializer orders them by name, and keeps,
/// for every name, its values in their original order (so it only moves
/// entries).
pub proof fn law_sorted_by_name(h: HeaderEntries, k: Seq<char>)
    ensures
        ordered_by_name(sorted_by_name(h)),
        sorted_by_name(h).len() == h.len(),
        values_for_key(sorted_by_name(h), k) == values_for_key(h, k),
    decreases h.len(),
{
    if h.len() > 0 {
        law_sorted_by_name(h.drop_last(), k);
        let r = sorted_by_name(h.drop_last());
        let e = h.last();
        let j = insertion_index(r, e.0);
        lemma_insertion_index(r, e.0);
        let out = r.insert(j, e);
        assert(out == sorted_by_name(h));
        // Order.
        assert forall|p: int, q: int| 0 <= p < q < out.len() implies !char_seq_less(
            #[trigger] out[q].0,
            #[trigger] out[p].0,
        ) by {
            if q < j {
                assert(out[p] == r[p] && out[q] == r[q]);
            } else if q == j {
                assert(out[q] == e && out[p] == r[p]);
                assert(!char_seq_less(e.0, r[j - 1].0));
                if p < j - 1 {
                    assert(!char_seq_less(r[j - 1].0, r[p].0));
                    lemma_not_less_transitive(r[p].0, r[j - 1].0, e.0);
                }
            } else if p == j {
                assert(out[p] == e && out[q] == r[q - 1]);
                assert(char_seq_less(e.0, r[q - 1].0));
                lemma_less_asymmetric(e.0, r[q - 1].0);
            } else if p < j {
                assert(out[p] == r[p] && out[q] == r[q - 1]);
            } else {
                assert(out[p] == r[p - 1] && out[q] == r[q - 1]);
            }
        }
        // Values per name.
        assert(out =~= r.take(j).push(e) + r.skip(j));
        lemma_values_for_key_concat(r.take(j).push(e), r.skip(j), k);
        assert(r.take(j).push(e).drop_last() == r.take(j));
        assert(r =~= r.take(j) + r.skip(j));
        lemma_values_for_key_concat(r.take(j), r.skip(j), k);
        if e.0 == k {
            assert forall|i: int| 0 <= i < r.skip(j).len() implies #[trigger] r.skip(j)[i].0
                != k by {
                assert(r.skip(j)[i] == r[j + i]);
                assert(char_seq_less(k, r[j + i].0));
                lemma_less_irreflexive(k);
            }
            lemma_values_for_absent_key(r.skip(j), k);
            assert(values_for_key(out, k) =~= values_for_key(r.take(j), k).push(e.1));
            assert(values_for_key(r, k) =~= values_for_key(r.take(j), k));
        }
        assert(h.drop_last().push(e) == h);
    }
}

/// A value in normal form: no line breaks, no whitespace at either end,
/// and no two whitespace characters in a row.
pub open spec fn is_normalized(s: Seq<char>) -> bool {
    &&& forall|i: int| 0 <= i < s.len() ==> !is_line_break(#[trigger] s[i])
    &&& s.len() > 0 ==> !is_ws(s[0]) && !is_ws(s.last())
    &&& forall|i: int| 0 <= i < s.len() - 1 ==> !(is_ws(#[trigger] s[i]) && is_ws(s[i + 1]))
}

proof fn lemma_without_line_breaks(s: Seq<char>)
    ensures
        forall|i: int|
            0 <= i < without_line_breaks(s).len() ==> !is_line_break(
                #[trigger] without_line_breaks(s)[i],
            ),
        (forall|i: int| 0 <= i < s.len() ==> !is_line_break(#[trigger] s[i]))
            ==> without_line_breaks(s) == s,
    decreases s.len(),
{
    if s.len() > 0 {
        lemma_without_line_breaks(s.drop_last());
        let r = without_line_breaks(s.drop_last());
        if !is_line_break(s.last()) {
            assert forall|i: int| 0 <= i < r.push(s.last()).len() implies !is_line_break(
                #[trigger] r.push(s.last())[i],
            ) by {
                if i < r.len() {
                    assert(r.push(s.last())[i] == r[i]);
                }
            }
        }
        if forall|i: int| 0 <= i < s.len() ==> !is_line_break(#[trigger] s[i]) {
            assert forall|i: int| 0 <= i < s.drop_last().len() implies !is_line_break(
                #[trigger] s.drop_last()[i],
            ) by {
                assert(s.drop_last()[i] == s[i]);
            }
            assert(!is_line_break(s[s.len() - 1]));
            assert(s.drop_last().push(s.last()) == s);
        }
    }
}

proof fn lemma_trim_start_ws(t: Seq<char>)
    requires
        forall|i: int| 0 <= i < t.len() ==> !is_line_break(#[trigger] t[i]),
    ensures
        forall|i: int|
            0 <= i < trim_start_ws(t).len() ==> !is_line_break(#[trigger] trim_start_ws(t)[i]),
        trim_start_ws(t).len() > 0 ==> !is_ws(trim_start_ws(t)[0]),
        trim_start_ws(t).len() > 0 && !is_ws(trim_start_ws(t).last()) ==> trim_start_ws(t).last()
            == t.last(),
        t.len() > 0 && !is_ws(t.last()) ==> trim_start_ws(t).len() > 0 && trim_start_ws(t).last()
            == t.last(),
    decreases t.len(),
{
    if t.len() > 0 && is_ws(t[0]) {
        assert forall|i: int| 0 <= i < t.drop_first().len() implies !is_line_break(
            #[trigger] t.drop_first()[i],
        ) by {
            assert(t.drop_first()[i] == t[i + 1]);
        }
        lemma_trim_start_ws(t.drop_first());
        if t.drop_first().len() > 0 {
            assert(t.drop_first().last() == t.last());
        }
    }
}

proof fn lemma_trim_end_ws(u: Seq<char>)
    requires
        forall|i: int| 0 <= i < u.len() ==> !is_line_break(#[trigger] u[i]),
        u.len() > 0 ==> !is_ws(u[0]),
    ensures
        forall|i: int|
            0 <= i < trim_end_ws(u).len() ==> !is_line_break(#[trigger] trim_end_ws(u)[i]),
        trim_end_ws(u).len() > 0 ==> !is_ws(trim_end_ws(u)[0]) && !is_ws(trim_end_ws(u).last()),
    decreases u.len(),
{
    if u.len() > 0 && is_ws(u.last()) {
        assert forall|i: int| 0 <= i < u.drop_last().len() implies !is_line_break(
            #[trigger] u.drop_last()[i],
        ) by {
            assert(u.drop_last()[i] == u[i]);
        }
        if u.drop_last().len() > 0 {
            assert(u.drop_last()[0] == u[0]);
        }
        lemma_trim_end_ws(u.drop_last());
    }
}

proof fn lemma_collapse_prefix(w: Seq<char>, n: int)
    requires
        0 <= n <= w.len(),
        forall|i: int| 0 <= i < w.len() ==> !is_line_break(#[trigger] w[i]),
    ensures
        ({
            let r = collapse_ws_prefix(w, n);
            &&& forall|i: int| 0 <= i < r.len() ==> !is_line_break(#[trigger] r[i])
            &&& n >= 1 && !is_ws(w[0]) ==> r.len() > 0 && r[0] == w[0]
            &&& forall|i: int| 0 <= i < r.len() - 1 ==> !(is_ws(#[trigger] r[i]) && is_ws(r[i + 1]))
            &&& r.len() > 0 ==> !is_ws(r.last()) || (is_ws(w[n - 1]) && kept_after_collapse(w, n - 1))
            &&& n >= 1 && kept_after_collapse(w, n - 1) ==> r.len() > 0 && r.last() == w[n - 1]
        }),
    decreases n,
{
    if n > 0 {
        lemma_collapse_prefix(w, n - 1);
        let p = collapse_ws_prefix(w, n - 1);
        if kept_after_collapse(w, n - 1) {
            let r = p.push(w[n - 1]);
            assert forall|i: int| 0 <= i < r.len() implies !is_line_break(#[trigger] r[i]) by {
                if i < p.len() {
                    assert(r[i] == p[i]);
                }
            }
            if n >= 2 && !is_ws(w[0]) {
                assert(r[0] == p[0]);
            }
            if p.len() > 0 && is_ws(w[n - 1]) {
                if is_ws(p.last()) {
                    assert(is_ws(w[n - 2]) && kept_after_collapse(w, n - 2));
                }
            }
            assert forall|i: int| 0 <= i < r.len() - 1 implies !(is_ws(#[trigger] r[i]) && is_ws(
                r[i + 1],
            )) by {
                if i < p.len() - 1 {
                    assert(r[i] == p[i] && r[i + 1] == p[i + 1]);
                } else {
                    assert(r[i] == p.last());
                }
            }
        } else {
            if p.len() > 0 && is_ws(p.last()) {
                assert(is_ws(w[n - 2]) && kept_after_collapse(w, n - 2));
            }
        }
    }
}

proof fn lemma_collapse_keeps_normalized(t: Seq<char>, n: int)
    requires
        0 <= n <= t.len(),
        is_normalized(t),
    ensures
        collapse_ws_prefix(t, n) == t.take(n),
    decreases n,
{
    if n > 0 {
        lemma_collapse_keeps_normalized(t, n - 1);
        if n - 1 < t.len() - 1 {
            assert(!(is_ws(t[n - 1]) && is_ws(t[n])));
        }
        assert(t.take(n - 1).push(t[n - 1]) =~= t.take(n));
    }
}

/// A normalized value is in normal form: no line breaks, no whitespace at
/// either end, no two whitespace characters in a row.
pub proof fn law_normalized_form(s: Seq<char>)
    ensures
        is_normalized(normalize_header_value(s)),
{
    lemma_without_line_breaks(s);
    let t = without_line_breaks(s);
    lemma_trim_start_ws(t);
    let u = trim_start_ws(t);
    lemma_trim_end_ws(u);
    let w = trim_end_ws(u);
    lemma_collapse_prefix(w, w.len() as int);
    let r = collapse_ws(w);
    if w.len() > 0 {
        assert(kept_after_collapse(w, w.len() - 1));
    }
}

proof fn lemma_without_line_breaks_len(s: Seq<char>)
    ensures
        without_line_breaks(s).len() <= s.len(),
    decreases s.len(),
{
    if s.len() > 0 {
        lemma_without_line_breaks_len(s.drop_last());
    }
}

proof fn lemma_trim_start_ws_len(s: Seq<char>)
    ensures
        trim_start_ws(s).len() <= s.len(),
    decreases s.len(),
{
    if s.len() > 0 && is_ws(s[0]) {
        lemma_trim_start_ws_len(s.drop_first());
    }
}

proof fn lemma_trim_end_ws_len(s: Seq<char>)
    ensures
        trim_end_ws(s).len() <= s.len(),
    decreases s.len(),
{
    if s.len() > 0 && is_ws(s.last()) {
        lemma_trim_end_ws_len(s.drop_last());
    }
}

proof fn lemma_collapse_ws_prefix_len(s: Seq<char>, n: int)
    requires
        0 <= n,
    ensures
        collapse_ws_prefix(s, n).len() <= n,
    decreases n,
{
    if n > 0 {
        lemma_collapse_ws_prefix_len(s, n - 1);
    }
}

/// Normalizing a value never makes it longer.
pub proof fn law_normalize_never_lengthens(s: Seq<char>)
    ensures
        normalize_header_value(s).len() <= s.len(),
{
    let a = without_line_breaks(s);
    let b = trim_start_ws(a);
    let c = trim_end_ws(b);
    lemma_without_line_breaks_len(s);
    lemma_trim_start_ws_len(a);
    lemma_trim_end_ws_len(b);
    lemma_collapse_ws_prefix_len(c, c.len() as int);
}

/// Normalizing a normalized value changes nothing.
pub proof fn law_normalize_idempotent(s: Seq<char>)
    ensures
        normalize_header_value(normalize_header_value(s)) == normalize_header_value(s),
{
    law_normalized_form(s);
    let r = normalize_header_value(s);
    lemma_without_line_breaks(r);
    lemma_collapse_keeps_normalized(r, r.len() as int);
    assert(r.take(r.len() as int) == r);
}

/// Once an initializer prefix is refused, so is the whole array, with the
/// same error.
pub proof fn lemma_init_entries_error_sticks(es: Seq<HeaderInit>, n: int)
    requires
        0 <= n <= es.len(),
        init_entries(es.take(n)) is Err,
    ensures
        init_entries(es) == init_entries(es.take(n)),
    decreases es.len() - n,
{
    if n < es.len() {
        assert(es.take(n + 1).drop_last() == es.take(n));
        lemma_init_entries_error_sticks(es, n + 1);
    } else {
        assert(es.take(n) == es);
    }
}

/// The characterization of `key_position`: the first index named `k`.
pub proof fn lemma_key_position(h: HeaderEntries, k: Seq<char>)
    ensures
        match key_position(h, k) {
            Some(i) => 0 <= i < h.len() && h[i].0 == k && forall|j: int|
                0 <= j < i ==> #[trigger] h[j].0 != k,
            None => forall|j: int| 0 <= j < h.len() ==> #[trigger] h[j].0 != k,
        },
    decreases h.len(),
{
    if h.len() > 0 {
        lemma_key_position(h.drop_last(), k);
        match key_position(h.drop_last(), k) {
            Some(i) => {
                assert(h.drop_last()[i] == h[i]);
                assert forall|j: int| 0 <= j < i implies #[trigger] h[j].0 != k by {
                    assert(h.drop_last()[j] == h[j]);
                }
            },
            None => {
                assert forall|j: int| 0 <= j < h.len() - 1 implies #[trigger] h[j].0 != k by {
                    assert(h.drop_last()[j] == h[j]);
                }
            },
        }
    }
}

fn set_cookie_string() -> (r: String)
    ensures
        r@ == set_cookie_name(),
{
    let r = "set-cookie".to_owned();
    proof {
        reveal_strlit("set-cookie");
        assert(r@ =~= set_cookie_name());
    }
    r
}

fn separator_string(key: &String) -> (r: String)
    ensures
        r@ == separator_for(key@),
{
    let cookie = "cookie".to_owned();
    proof {
        reveal_strlit("cookie");
    }
    assert(cookie@ =~= cookie_name());
    if *key == cookie {
        let r = "; ".to_owned();
        proof {
            reveal_strlit("; ");
            assert(r@ =~= seq![';', ' ']);
        }
        r
    } else {
        let r = ", ".to_owned();
        proof {
            reveal_strlit(", ");
            assert(r@ =~= seq![',', ' ']);
        }
        r
    }
}

/// Stably sorts pairs by name.
fn sort_by_name(v: &Vec<(String, String)>) -> (r: Vec<(String, String)>)
    ensures
        entries_view(r@) == sorted_by_name(entries_view(v@)),
{
    let ghost h = entries_view(v@);
    let mut r: Vec<(String, String)> = Vec::new();
    let mut i: usize = 0;
    while i < v.len()
        invariant
            h == entries_view(v@),
            i <= v.len(),
            entries_view(r@) == sorted_by_name(h.take(i as int)),
        decreases v.len() - i,
    {
        assert(h.take(i + 1).drop_last() == h.take(i as int));
        assert(h[i as int] == (v@[i as int].0@, v@[i as int].1@));
        let ghost sorted = entries_view(r@);
        let mut j: usize = r.len();
        assert(sorted.take(j as int) == sorted);
        while j > 0 && str_less(v[i].0.as_str(), r[j - 1].0.as_str())
            invariant
                h == entries_view(v@),
                i < v.len(),
                sorted == entries_view(r@),
                j <= r.len(),
                insertion_index(sorted, h[i as int].0) == insertion_index(
                    sorted.take(j as int),
                    h[i as int].0,
                ),
            decreases j,
        {
            assert(sorted[j - 1] == (r@[j - 1].0@, r@[j - 1].1@));
            assert(sorted.take(j as int).drop_last() == sorted.take(j - 1));
            j -= 1;
        }
        if j > 0 {
            assert(sorted[j - 1] == (r@[j - 1].0@, r@[j - 1].1@));
        }
        let entry = (v[i].0.clone(), v[i].1.clone());
        r.insert(j, entry);
        assert(entries_view(r@) =~= sorted.insert(j as int, h[i as int]));
        i += 1;
    }
    assert(h.take(h.len() as int) == h);
    r
}

/// The list of headers of a request or a response: (name, value) pairs in
/// insertion order. Names are stored lowercased.
#[derive(Clone)]
pub struct Headers {
    headers: Vec<(String, String)>,
}

impl View for Headers {
    type V = HeaderEntries;

    closed spec fn view(&self) -> HeaderEntries {
        entries_view(self.headers@)
    }
}

impl Default for Headers {
    fn default() -> (r: Self)
        ensures
            r@ == Seq::<(Seq<char>, Seq<char>)>::empty(),
    {
        let r = Headers { headers: Vec::new() };
        assert(r@ =~= Seq::<(Seq<char>, Seq<char>)>::empty());
        r
    }
}

impl Headers {
    /// An empty header list.
    pub fn new() -> (r: Self)
        ensures
            r@ == Seq::<(Seq<char>, Seq<char>)>::empty(),
    {
        let r = Headers { headers: Vec::new() };
        assert(r@ =~= Seq::<(Seq<char>, Seq<char>)>::empty());
        r
    }

    /// The index of the first entry named `key`.
    fn position_of(&self, key: &String) -> (r: Option<usize>)
        ensures
            r matches Some(i) ==> key_position(self@, key@) == Some(i as int) && i
                < self.headers.len(),
            r is None ==> key_position(self@, key@) is None,
    {
        let mut i: usize = 0;
        while i < self.headers.len()
            invariant
                i <= self.headers.len(),
                forall|j: int| 0 <= j < i ==> #[trigger] self@[j].0 != key@,
            decreases self.headers.len() - i,
        {
            assert(self@[i as int] == (self.headers@[i as int].0@, self.headers@[i as int].1@));
            if self.headers[i].0 == *key {
                proof {
                    assert(self@[i as int].0 == key@);
                    lemma_key_position(self@, key@);
                    match key_position(self@, key@) {
                        Some(p) => {
                            if p < i {
                                assert(self@[p].0 != key@);
                            }
                            if p > i {
                                assert(self@[i as int].0 != key@);
                            }
                        },
                        None => {
                            assert(self@[i as int].0 != key@);
                        },
                    }
                }
                return Some(i);
            }
            i += 1;
        }
        proof {
            lemma_key_position(self@, key@);
        }
        None
    }

    /// Keeps only the entries not named `key`.
    fn remove_key(&mut self, key: &String)
        ensures
            final(self)@ == without_key(old(self)@, key@),
    {
        let ghost h = self@;
        let mut kept: Vec<(String, String)> = Vec::new();
        let mut i: usize = 0;
        while i < self.headers.len()
            invariant
                self@ == h,
                i <= self.headers.len(),
                entries_view(kept@) == without_key(h.take(i as int), key@),
            decreases self.headers.len() - i,
        {
            assert(h.take(i + 1).drop_last() == h.take(i as int));
            if !(self.headers[i].0 == *key) {
                let entry = (self.headers[i].0.clone(), self.headers[i].1.clone());
                kept.push(entry);
                assert(entries_view(kept@) =~= without_key(h.take(i as int), key@).push(h[i as int]));
            }
            i += 1;
        }
        assert(h.take(h.len() as int) == h);
        self.headers = kept;
    }

    /// Appends `value` under `name`. The name is lowercased and the value
    /// normalized first; each must then be valid.
    pub fn append(&mut self, key: String, value: String) -> (r: Result<(), HeaderError>)
        ensures
            match name_value_error(key@, value@) {
                Some(e) => r == Err::<(), HeaderError>(e) && final(self)@ == old(self)@,
                None => r is Ok && final(self)@ == appended(
                    old(self)@,
                    header_key(key@),
                    normalize_header_value(value@),
                ),
            },
            is_ascii_text(key@) ==> header_key(key@) == ascii_lowercase(key@),
    {
        let key = to_lowercase(key.as_str());
        self.append_lowercased(key, value)
    }

    /// Appends `value` under the lowercased name `key`: the value is
    /// normalized first; each must then be valid.
    pub fn append_lowercased(&mut self, key: String, value: String) -> (r: Result<(), HeaderError>)
        ensures
            match entry_error(key@, value@) {
                Some(e) => r == Err::<(), HeaderError>(e) && final(self)@ == old(self)@,
                None => r is Ok && final(self)@ == appended(
                    old(self)@,
                    key@,
                    normalize_header_value(value@),
                ),
            },
    {
        if !is_http_header_name(key.as_str()) {
            return Err(HeaderError::InvalidKey);
        }
        let mut value = value;
        normalize_header_value_inplace(&mut value);
        if !is_http_header_value(value.as_str()) {
            return Err(HeaderError::InvalidValue);
        }
        if key == set_cookie_string() {
            self.headers.push((key, value));
            proof {
                assert(self@ =~= appended(old(self)@, key@, value@));
            }
            return Ok(());
        }
        match self.position_of(&key) {
            Some(i) => {
                let mut combined = self.headers[i].1.clone();
                combined.append(separator_string(&key).as_str());
                combined.append(value.as_str());
                self.headers.set(i, (key, combined));
                proof {
                    assert(self@ =~= appended(old(self)@, key@, value@));
                }
            },
            None => {
                self.headers.push((key, value));
                proof {
                    assert(self@ =~= appended(old(self)@, key@, value@));
                }
            },
        }
        Ok(())
    }

    /// The value stored under `name`: for `set-cookie`, all its values
    /// joined by ", "; for any other name, the value of its first entry;
    /// `None` when there is no such entry.
    pub fn get(&self, key: String) -> (r: Result<Option<String>, HeaderError>)
        ensures
            !valid_header_name(header_key(key@)) ==> r == Err::<Option<String>, HeaderError>(
                HeaderError::InvalidKey,
            ),
            valid_header_name(header_key(key@)) ==> r is Ok && (match r {
                Ok(Some(v)) => lookup(self@, header_key(key@)) == Some(v@),
                Ok(None) => lookup(self@, header_key(key@)) is None,
                Err(_) => false,
            }),
            is_ascii_text(key@) ==> header_key(key@) == ascii_lowercase(key@),
    {
        let key = to_lowercase(key.as_str());
        self.get_lowercased(key)
    }

    /// The value stored under the lowercased name `key` (see `get`).
    pub fn get_lowercased(&self, key: String) -> (r: Result<Option<String>, HeaderError>)
        ensures
            !valid_header_name(key@) ==> r == Err::<Option<String>, HeaderError>(
                HeaderError::InvalidKey,
            ),
            valid_header_name(key@) ==> r is Ok && (match r {
                Ok(Some(v)) => lookup(self@, key@) == Some(v@),
                Ok(None) => lookup(self@, key@) is None,
                Err(_) => false,
            }),
    {
        if !is_http_header_name(key.as_str()) {
            return Err(HeaderError::InvalidKey);
        }
        if key == set_cookie_string() {
            let ghost h = self@;
            let sep = ", ".to_owned();
            proof {
                reveal_strlit(", ");
                assert(sep@ =~= list_separator());
            }
            let mut joined = String::new();
            let mut found = false;
            let mut i: usize = 0;
            while i < self.headers.len()
                invariant
                    self@ == h,
                    sep@ == list_separator(),
                    i <= self.headers.len(),
                    found == (values_for_key(h.take(i as int), key@).len() > 0),
                    found ==> joined@ == join(values_for_key(h.take(i as int), key@), sep@),
                decreases self.headers.len() - i,
            {
                assert(h.take(i + 1).drop_last() == h.take(i as int));
                assert(h[i as int] == (self.headers@[i as int].0@, self.headers@[i as int].1@));
                let ghost vs = values_for_key(h.take(i as int), key@);
                if self.headers[i].0 == key {
                    assert(values_for_key(h.take(i + 1), key@) == vs.push(h[i as int].1));
                    assert(vs.push(h[i as int].1).drop_last() == vs);
                    if found {
                        joined.append(sep.as_str());
                        joined.append(self.headers[i].1.as_str());
                    } else {
                        joined = self.headers[i].1.clone();
                        found = true;
                    }
                }
                i += 1;
            }
            assert(h.take(h.len() as int) == h);
            if found {
                return Ok(Some(joined));
            } else {
                return Ok(None);
            }
        }
        match self.position_of(&key) {
            Some(i) => {
                proof {
                    assert(self@[i as int] == (
                        self.headers@[i as int].0@,
                        self.headers@[i as int].1@,
                    ));
                }
                Ok(Some(self.headers[i].1.clone()))
            },
            None => Ok(None),
        }
    }

    /// The values of all `set-cookie` entries, in order.
    pub fn get_set_cookie(&self) -> (r: Vec<&str>)
        ensures
            str_views(r@) == values_for_key(self@, set_cookie_name()),
    {
        let ghost h = self@;
        let name = set_cookie_string();
        let mut r: Vec<&str> = Vec::new();
        let mut i: usize = 0;
        while i < self.headers.len()
            invariant
                self@ == h,
                name@ == set_cookie_name(),
                i <= self.headers.len(),
                str_views(r@) == values_for_key(h.take(i as int), name@),
            decreases self.headers.len() - i,
        {
            assert(h.take(i + 1).drop_last() == h.take(i as int));
            assert(h[i as int] == (self.headers@[i as int].0@, self.headers@[i as int].1@));
            if self.headers[i].0 == name {
                let ghost before = r@;
                r.push(self.headers[i].1.as_str());
                assert(str_views(r@) =~= str_views(before).push(
                    h[i as int].1,
                ));
            }
            i += 1;
        }
        assert(h.take(h.len() as int) == h);
        r
    }

    /// Whether an entry is stored under `name`.
    pub fn has(&self, key: String) -> (r: Result<bool, HeaderError>)
        ensures
            !valid_header_name(header_key(key@)) ==> r == Err::<bool, HeaderError>(
                HeaderError::InvalidKey,
            ),
            valid_header_name(header_key(key@)) ==> r == Ok::<bool, HeaderError>(
                contains_key(self@, header_key(key@)),
            ),
            is_ascii_text(key@) ==> header_key(key@) == ascii_lowercase(key@),
    {
        let key = to_lowercase(key.as_str());
        self.has_lowercased(key)
    }

    /// Whether an entry is stored under the lowercased name `key`.
    pub fn has_lowercased(&self, key: String) -> (r: Result<bool, HeaderError>)
        ensures
            !valid_header_name(key@) ==> r == Err::<bool, HeaderError>(HeaderError::InvalidKey),
            valid_header_name(key@) ==> r == Ok::<bool, HeaderError>(contains_key(self@, key@)),
    {
        if !is_http_header_name(key.as_str()) {
            return Err(HeaderError::InvalidKey);
        }
        let found = self.position_of(&key);
        proof {
            lemma_key_position(self@, key@);
        }
        Ok(found.is_some())
    }

    /// Sets `name` to `value`, replacing what was stored under it. The name
    /// is lowercased and the value normalized first; each must then be valid.
    pub fn set(&mut self, key: String, value: String) -> (r: Result<(), HeaderError>)
        ensures
            match name_value_error(key@, value@) {
                Some(e) => r == Err::<(), HeaderError>(e) && final(self)@ == old(self)@,
                None => r is Ok && final(self)@ == assigned(
                    old(self)@,
                    header_key(key@),
                    normalize_header_value(value@),
                ),
            },
            is_ascii_text(key@) ==> header_key(key@) == ascii_lowercase(key@),
    {
        let key = to_lowercase(key.as_str());
        self.set_lowercased(key, value)
    }

    /// Sets the lowercased name `key` to `value` (see `set`).
    pub fn set_lowercased(&mut self, key: String, value: String) -> (r: Result<(), HeaderError>)
        ensures
            match entry_error(key@, value@) {
                Some(e) => r == Err::<(), HeaderError>(e) && final(self)@ == old(self)@,
                None => r is Ok && final(self)@ == assigned(
                    old(self)@,
                    key@,
                    normalize_header_value(value@),
                ),
            },
    {
        if !is_http_header_name(key.as_str()) {
            return Err(HeaderError::InvalidKey);
        }
        let mut value = value;
        normalize_header_value_inplace(&mut value);
        if !is_http_header_value(value.as_str()) {
            return Err(HeaderError::InvalidValue);
        }
        if key == set_cookie_string() {
            self.remove_key(&key);
            let ghost removed = self@;
            self.headers.push((key, value));
            proof {
                assert(self@ =~= removed.push((key@, value@)));
            }
            return Ok(());
        }
        match self.position_of(&key) {
            Some(i) => {
                self.headers.set(i, (key, value));
                proof {
                    assert(self@ =~= assigned(old(self)@, key@, value@));
                }
            },
            None => {
                self.headers.push((key, value));
                proof {
                    assert(self@ =~= assigned(old(self)@, key@, value@));
                }
            },
        }
        Ok(())
    }

    /// Removes every entry stored under `name`.
    pub fn delete(&mut self, key: String) -> (r: Result<(), HeaderError>)
        ensures
            !valid_header_name(header_key(key@)) ==> r == Err::<(), HeaderError>(
                HeaderError::InvalidKey,
            ) && final(self)@ == old(self)@,
            valid_header_name(header_key(key@)) ==> r is Ok && final(self)@ == without_key(
                old(self)@,
                header_key(key@),
            ),
            is_ascii_text(key@) ==> header_key(key@) == ascii_lowercase(key@),
    {
        let key = to_lowercase(key.as_str());
        self.delete_lowercased(key)
    }

    /// Removes every entry stored under the lowercased name `key`.
    pub fn delete_lowercased(&mut self, key: String) -> (r: Result<(), HeaderError>)
        ensures
            !valid_header_name(key@) ==> r == Err::<(), HeaderError>(HeaderError::InvalidKey)
                && final(self)@ == old(self)@,
            valid_header_name(key@) ==> r is Ok && final(self)@ == without_key(old(self)@, key@),
    {
        if !is_http_header_name(key.as_str()) {
            return Err(HeaderError::InvalidKey);
        }
        self.remove_key(&key);
        Ok(())
    }

    /// The names of all entries, in order.
    pub fn keys(&self) -> (r: Vec<&str>)
        ensures
            str_views(r@) == names_of(self@),
    {
        let mut r: Vec<&str> = Vec::new();
        let mut i: usize = 0;
        while i < self.headers.len()
            invariant
                i <= self.headers.len(),
                str_views(r@) == names_of(self@.take(i as int)),
                r@.len() == i,
            decreases self.headers.len() - i,
        {
            let ghost before = r@;
            assert(self@[i as int] == (self.headers@[i as int].0@, self.headers@[i as int].1@));
            let item = self.headers[i].0.as_str();
            r.push(item);
            assert(r@ == before.push(item));
            assert forall|j: int| 0 <= j < i + 1 implies #[trigger] str_views(r@)[j]
                == names_of(self@.take(i + 1))[j] by {
                if j < i {
                    assert(r@[j] == before[j]);
                    assert(str_views(before)[j] == names_of(self@.take(i as int))[j]);
                }
            }
            assert(str_views(r@) =~= names_of(self@.take(i + 1)));
            i += 1;
        }
        assert(self@.take(self@.len() as int) == self@);
        r
    }

    /// The values of all entries, in order.
    pub fn values(&self) -> (r: Vec<&str>)
        ensures
            str_views(r@) == values_of(self@),
    {
        let mut r: Vec<&str> = Vec::new();
        let mut i: usize = 0;
        while i < self.headers.len()
            invariant
                i <= self.headers.len(),
                str_views(r@) == values_of(self@.take(i as int)),
                r@.len() == i,
            decreases self.headers.len() - i,
        {
            let ghost before = r@;
            assert(self@[i as int] == (self.headers@[i as int].0@, self.headers@[i as int].1@));
            let item = self.headers[i].1.as_str();
            r.push(item);
            assert(r@ == before.push(item));
            assert forall|j: int| 0 <= j < i + 1 implies #[trigger] str_views(r@)[j]
                == values_of(self@.take(i + 1))[j] by {
                if j < i {
                    assert(r@[j] == before[j]);
                    assert(str_views(before)[j] == values_of(self@.take(i as int))[j]);
                }
            }
            assert(str_views(r@) =~= values_of(self@.take(i + 1)));
            i += 1;
        }
        assert(self@.take(self@.len() as int) == self@);
        r
    }

    /// The (name, value) pairs, in order.
    pub fn iter(&self) -> (r: Vec<(&str, &str)>)
        ensures
            pair_views(r@) == self@,
    {
        let mut r: Vec<(&str, &str)> = Vec::new();
        let mut i: usize = 0;
        while i < self.headers.len()
            invariant
                i <= self.headers.len(),
                pair_views(r@) == self@.take(i as int),
                r@.len() == i,
            decreases self.headers.len() - i,
        {
            assert(self@[i as int] == (self.headers@[i as int].0@, self.headers@[i as int].1@));
            let ghost before = r@;
            let item = (self.headers[i].0.as_str(), self.headers[i].1.as_str());
            r.push(item);
            assert(r@ == before.push(item));
            assert forall|j: int| 0 <= j < i + 1 implies #[trigger] pair_views(r@)[j] == self@.take(i + 1)[j] by {
                if j < i {
                    assert(r@[j] == before[j]);
                    assert(pair_views(before)[j] == self@.take(
                        i as int,
                    )[j]);
                }
            }
            assert(pair_views(r@) =~= self@.take(i + 1));
            i += 1;
        }
        assert(self@.take(self@.len() as int) == self@);
        r
    }

    /// The header list of an initializer array: the pairs in order, names
    /// lowercased and values combined per name (`set-cookie` values kept
    /// apart), then stably sorted by name. The first entry that is not a
    /// pair, has an invalid name or has an invalid value refuses the array.
    pub fn array_to_headers(entries: Vec<HeaderInit>) -> (r: Result<Self, HeaderError>)
        ensures
            match init_entries(entries@) {
                Ok(h) => r matches Ok(x) && x@ == sorted_by_name(h) && ordered_by_name(x@),
                Err(e) => r == Err::<Self, HeaderError>(e),
            },
    {
        let mut combined = Headers::new();
        let mut i: usize = 0;
        while i < entries.len()
            invariant
                i <= entries.len(),
                init_entries(entries@.take(i as int)) == Ok::<HeaderEntries, HeaderError>(
                    combined@,
                ),
            decreases entries.len() - i,
        {
            assert(entries@.take(i + 1).drop_last() == entries@.take(i as int));
            match &entries[i] {
                HeaderInit::Unpaired => {
                    proof {
                        lemma_init_entries_error_sticks(entries@, i as int + 1);
                    }
                    return Err(HeaderError::NotPaired);
                },
                HeaderInit::Pair(name, value) => {
                    let key = to_lowercase(name.as_str());
                    if !is_http_header_name(key.as_str()) {
                        proof {
                            lemma_init_entries_error_sticks(entries@, i as int + 1);
                        }
                        return Err(HeaderError::InvalidKey);
                    }
                    if !is_http_header_value(value.as_str()) {
                        proof {
                            lemma_init_entries_error_sticks(entries@, i as int + 1);
                        }
                        return Err(HeaderError::InvalidValue);
                    }
                    combined.add_unchecked(key, value.clone());
                },
            }
            i += 1;
        }
        assert(entries@.take(entries@.len() as int) == entries@);
        let sorted = sort_by_name(&combined.headers);
        proof {
            law_sorted_by_name(combined@, Seq::empty());
        }
        Ok(Headers { headers: sorted })
    }

    /// Adds a pair as `append` does, for a name and a value already
    /// lowercased, normalized or checked by the caller.
    fn add_unchecked(&mut self, key: String, value: String)
        ensures
            final(self)@ == appended(old(self)@, key@, value@),
    {
        if key == set_cookie_string() {
            self.headers.push((key, value));
            proof {
                assert(self@ =~= appended(old(self)@, key@, value@));
            }
            return ;
        }
        match self.position_of(&key) {
            Some(i) => {
                let mut joined = self.headers[i].1.clone();
                joined.append(separator_string(&key).as_str());
                joined.append(value.as_str());
                self.headers.set(i, (key, joined));
                proof {
                    assert(self@ =~= appended(old(self)@, key@, value@));
                }
            },
            None => {
                self.headers.push((key, value));
                proof {
                    assert(self@ =~= appended(old(self)@, key@, value@));
                }
            },
        }
    }

    /// The header list of a string-keyed map, in the map's order (ascending
    /// names for a `BTreeMap`): pairs whose name is not a valid header name
    /// are dropped, names are lowercased and values normalized.
    pub fn from_map(map: Vec<(String, String)>) -> (r: Self)
        ensures
            r@ == map_entries(entries_view(map@)),
    {
        let ghost m = entries_view(map@);
        let mut headers: Vec<(String, String)> = Vec::new();
        let mut i: usize = 0;
        while i < map.len()
            invariant
                m == entries_view(map@),
                i <= map.len(),
                entries_view(headers@) == map_entries(m.take(i as int)),
            decreases map.len() - i,
        {
            assert(m.take(i + 1).drop_last() == m.take(i as int));
            assert(m[i as int] == (map@[i as int].0@, map@[i as int].1@));
            if is_http_header_name(map[i].0.as_str()) {
                let mut value = map[i].1.clone();
                normalize_header_value_inplace(&mut value);
                let key = to_lowercase(map[i].0.as_str());
                let ghost before = entries_view(headers@);
                headers.push((key, value));
                assert(entries_view(headers@) =~= before.push((key@, value@)));
            }
            i += 1;
        }
        assert(m.take(m.len() as int) == m);
        Headers { headers }
    }

    /// The header list of a `HeaderMap`: its pairs in the map's iteration
    /// order, each value decoded as lossy UTF-8.
    pub fn from_http_headers(header_map: &hyper::HeaderMap) -> (r: Self)
        ensures
            r@ == decoded_entries(header_map_entries(*header_map)),
            r@.len() == header_map_entries(*header_map).len(),
            forall|i: int|
                0 <= i < r@.len() ==> (#[trigger] r@[i]).0 == header_map_entries(*header_map)[i].0
                    && r@[i].1 == utf8_lossy_text(header_map_entries(*header_map)[i].1),
            forall|i: int|
                0 <= i < r@.len() && valid_utf8(header_map_entries(*header_map)[i].1) ==> (
                #[trigger] r@[i]).1 == decode_utf8(header_map_entries(*header_map)[i].1),
    {
        let pairs = header_map_pairs(header_map);
        let ghost m = pairs@.map_values(|p: (String, Vec<u8>)| (p.0@, p.1@));
        let mut headers: Vec<(String, String)> = Vec::new();
        let mut i: usize = 0;
        while i < pairs.len()
            invariant
                m == pairs@.map_values(|p: (String, Vec<u8>)| (p.0@, p.1@)),
                i <= pairs.len(),
                entries_view(headers@) == decoded_entries(m.take(i as int)),
                forall|j: int|
                    0 <= j < i && valid_utf8(#[trigger] m[j].1) ==> utf8_lossy_text(m[j].1)
                        == decode_utf8(m[j].1),
            decreases pairs.len() - i,
        {
            let value = from_utf8_lossy(pairs[i].1.as_slice());
            let ghost before = entries_view(headers@);
            headers.push((pairs[i].0.clone(), value));
            assert(m[i as int] == (pairs@[i as int].0@, pairs@[i as int].1@));
            assert(m.take(i + 1) == m.take(i as int).push(m[i as int]));
            assert(entries_view(headers@) =~= before.push((m[i as int].0, utf8_lossy_text(m[i as int].1))));
            assert(decoded_entries(m.take(i + 1)) =~= decoded_entries(m.take(i as int)).push(
                (m[i as int].0, utf8_lossy_text(m[i as int].1)),
            ));
            i += 1;
        }
        assert(m.take(m.len() as int) == m);
        proof {
            law_decoded_entries_keep_bytes(m);
        }
        Headers { headers }
    }

    /// The `Symbol.toStringTag` of the class.
    pub fn to_string_tag(&self) -> (r: &'static str)
        ensures
            r@ == "Headers"@,
    {
        "Headers"
    }
}

// ---------------------------------------------------------------------------
// The invariant of a header list.
// ---------------------------------------------------------------------------

/// Whether `n` is the lowercase form of some name.
pub open spec fn lowercased_name(n: Seq<char>) -> bool {
    exists|k: Seq<char>| n == unicode_lowercase(k)
}

/// An entry as the operations store it: a valid, lowercased name and a
/// valid value.
pub open spec fn valid_entry(e: (Seq<char>, Seq<char>)) -> bool {
    valid_header_name(e.0) && lowercased_name(e.0) && valid_header_value(e.1)
}

/// A header list as its operations keep it: every entry is valid, and no
/// name other than `set-cookie` has two entries.
pub open spec fn well_formed_entries(h: HeaderEntries) -> bool {
    &&& forall|i: int| 0 <= i < h.len() ==> valid_entry(#[trigger] h[i])
    &&& forall|k: Seq<char>| k != set_cookie_name() ==> #[trigger] values_for_key(h, k).len() <= 1
}

/// Every entry of `a` is an entry of `b`.
pub open spec fn entries_within(a: HeaderEntries, b: HeaderEntries) -> bool {
    forall|i: int| 0 <= i < a.len() ==> exists|j: int| 0 <= j < b.len() && #[trigger] a[i] == b[j]
}

proof fn lemma_values_push(h: HeaderEntries, e: (Seq<char>, Seq<char>), k: Seq<char>)
    ensures
        values_for_key(h.push(e), k) == if e.0 == k {
            values_for_key(h, k).push(e.1)
        } else {
            values_for_key(h, k)
        },
{
    assert(h.push(e).drop_last() == h);
}

proof fn lemma_values_update_same_name(h: HeaderEntries, i: int, w: Seq<char>, k: Seq<char>)
    requires
        0 <= i < h.len(),
    ensures
        values_for_key(h.update(i, (h[i].0, w)), k).len() == values_for_key(h, k).len(),
    decreases h.len(),
{
    let u = h.update(i, (h[i].0, w));
    if i == h.len() - 1 {
        assert(u.drop_last() == h.drop_last());
    } else {
        lemma_values_update_same_name(h.drop_last(), i, w, k);
        assert(u.drop_last() == h.drop_last().update(i, (h[i].0, w)));
    }
}

proof fn lemma_valid_value_concat(a: Seq<char>, b: Seq<char>)
    requires
        valid_header_value(a),
        valid_header_value(b),
    ensures
        valid_header_value(a + b),
{
    assert forall|i: int| 0 <= i < (a + b).len() implies #[trigger] is_value_char((a + b)[i]) by {
        if i < a.len() {
            assert((a + b)[i] == a[i]);
        } else {
            assert((a + b)[i] == b[i - a.len()]);
        }
    }
}

proof fn lemma_entries_within_wf(a: HeaderEntries, b: HeaderEntries)
    requires
        entries_within(a, b),
        forall|i: int| 0 <= i < b.len() ==> valid_entry(#[trigger] b[i]),
    ensures
        forall|i: int| 0 <= i < a.len() ==> valid_entry(#[trigger] a[i]),
{
    assert forall|i: int| 0 <= i < a.len() implies valid_entry(#[trigger] a[i]) by {
        let j = choose|j: int| 0 <= j < b.len() && a[i] == b[j];
        assert(valid_entry(b[j]));
    }
}

proof fn lemma_without_key_within(h: HeaderEntries, k: Seq<char>)
    ensures
        entries_within(without_key(h, k), h),
    decreases h.len(),
{
    if h.len() > 0 {
        lemma_without_key_within(h.drop_last(), k);
        let w = without_key(h.drop_last(), k);
        assert forall|i: int| 0 <= i < without_key(h, k).len() implies exists|j: int|
            0 <= j < h.len() && #[trigger] without_key(h, k)[i] == h[j] by {
            if i < w.len() {
                let j = choose|j: int| 0 <= j < h.drop_last().len() && w[i] == h.drop_last()[j];
                assert(without_key(h, k)[i] == h[j]);
            } else {
                assert(without_key(h, k)[i] == h[h.len() - 1]);
            }
        }
    }
}

proof fn lemma_sorted_within(h: HeaderEntries)
    ensures
        entries_within(sorted_by_name(h), h),
    decreases h.len(),
{
    if h.len() > 0 {
        lemma_sorted_within(h.drop_last());
        let r = sorted_by_name(h.drop_last());
        let e = h.last();
        let j = insertion_index(r, e.0);
        lemma_insertion_index(r, e.0);
        let out = r.insert(j, e);
        assert(out == sorted_by_name(h));
        assert forall|i: int| 0 <= i < out.len() implies exists|q: int|
            0 <= q < h.len() && #[trigger] out[i] == h[q] by {
            if i < j {
                assert(out[i] == r[i]);
                let q = choose|q: int| 0 <= q < h.drop_last().len() && r[i] == h.drop_last()[q];
                assert(out[i] == h[q]);
            } else if i == j {
                assert(out[i] == h[h.len() - 1]);
            } else {
                assert(out[i] == r[i - 1]);
                let q = choose|q: int|
                    0 <= q < h.drop_last().len() && r[i - 1] == h.drop_last()[q];
                assert(out[i] == h[q]);
            }
        }
    }
}

/// Removing a name keeps a list well formed.
pub proof fn law_delete_keeps_well_formed(h: HeaderEntries, k: Seq<char>)
    requires
        well_formed_entries(h),
    ensures
        well_formed_entries(without_key(h, k)),
{
    let w = without_key(h, k);
    lemma_without_key_within(h, k);
    lemma_entries_within_wf(w, h);
    assert forall|k2: Seq<char>| k2 != set_cookie_name() implies #[trigger] values_for_key(
        w,
        k2,
    ).len() <= 1 by {
        if k2 == k {
            lemma_without_key_absent(h, k);
            lemma_occurrence(w, k);
        } else {
            lemma_without_other_key(h, k, k2);
            assert(values_for_key(h, k2).len() <= 1);
        }
    }
}

/// Appending a valid, lowercased name and a valid value keeps a list well
/// formed.
pub proof fn lemma_appended_keeps_well_formed(h: HeaderEntries, key: Seq<char>, w: Seq<char>)
    requires
        well_formed_entries(h),
        valid_header_name(key),
        lowercased_name(key),
        valid_header_value(w),
    ensures
        well_formed_entries(appended(h, key, w)),
{
    let out = appended(h, key, w);
    lemma_key_position(h, key);
    if key == set_cookie_name() {
        assert forall|i: int| 0 <= i < out.len() implies valid_entry(#[trigger] out[i]) by {
            if i < h.len() {
                assert(out[i] == h[i]);
            }
        }
        assert forall|k2: Seq<char>| k2 != set_cookie_name() implies #[trigger] values_for_key(
            out,
            k2,
        ).len() <= 1 by {
            lemma_values_push(h, (key, w), k2);
            assert(values_for_key(h, k2).len() <= 1);
        }
    } else {
        match key_position(h, key) {
            Some(i) => {
                let combined = h[i].1 + separator_for(key) + w;
                assert(valid_entry(h[i]));
                assert(valid_header_value(separator_for(key)));
                lemma_valid_value_concat(h[i].1, separator_for(key));
                lemma_valid_value_concat(h[i].1 + separator_for(key), w);
                assert(out == h.update(i, (h[i].0, combined)));
                assert forall|j: int| 0 <= j < out.len() implies valid_entry(#[trigger] out[j]) by {
                    if j != i {
                        assert(out[j] == h[j]);
                    }
                }
                assert forall|k2: Seq<char>| k2 != set_cookie_name() implies #[trigger] values_for_key(
                    out,
                    k2,
                ).len() <= 1 by {
                    lemma_values_update_same_name(h, i, combined, k2);
                    assert(values_for_key(h, k2).len() <= 1);
                }
            },
            None => {
                lemma_occurrence(h, key);
                assert forall|i: int| 0 <= i < out.len() implies valid_entry(#[trigger] out[i]) by {
                    if i < h.len() {
                        assert(out[i] == h[i]);
                    }
                }
                assert forall|k2: Seq<char>| k2 != set_cookie_name() implies #[trigger] values_for_key(
                    out,
                    k2,
                ).len() <= 1 by {
                    lemma_values_push(h, (key, w), k2);
                    assert(values_for_key(h, k2).len() <= 1);
                }
            },
        }
    }
}

/// `append` keeps a list well formed, whether it succeeds or not.
pub proof fn law_append_keeps_well_formed(h: HeaderEntries, k: Seq<char>, v: Seq<char>)
    requires
        well_formed_entries(h),
    ensures
        name_value_error(k, v) is None ==> well_formed_entries(
            appended(h, header_key(k), normalize_header_value(v)),
        ),
{
    if name_value_error(k, v) is None {
        assert(header_key(k) == unicode_lowercase(k));
        lemma_appended_keeps_well_formed(h, header_key(k), normalize_header_value(v));
    }
}

/// `set` keeps a list well formed, whether it succeeds or not.
pub proof fn law_set_keeps_well_formed(h: HeaderEntries, k: Seq<char>, v: Seq<char>)
    requires
        well_formed_entries(h),
    ensures
        name_value_error(k, v) is None ==> well_formed_entries(
            assigned(h, header_key(k), normalize_header_value(v)),
        ),
{
    if name_value_error(k, v) is None {
        let key = header_key(k);
        let w = normalize_header_value(v);
        assert(key == unicode_lowercase(k));
        let out = assigned(h, key, w);
        if key == set_cookie_name() {
            let r = without_key(h, key);
            law_delete_keeps_well_formed(h, key);
            assert forall|i: int| 0 <= i < out.len() implies valid_entry(#[trigger] out[i]) by {
                if i < r.len() {
                    assert(out[i] == r[i]);
                }
            }
            assert forall|k2: Seq<char>| k2 != set_cookie_name() implies #[trigger] values_for_key(
                out,
                k2,
            ).len() <= 1 by {
                lemma_values_push(r, (key, w), k2);
                assert(values_for_key(r, k2).len() <= 1);
            }
        } else {
            lemma_key_position(h, key);
            match key_position(h, key) {
                Some(i) => {
                    assert(out == h.update(i, (h[i].0, w)));
                    assert forall|j: int| 0 <= j < out.len() implies valid_entry(#[trigger] out[j]) by {
                        if j != i {
                            assert(out[j] == h[j]);
                        }
                    }
                    assert forall|k2: Seq<char>| k2 != set_cookie_name() implies #[trigger] values_for_key(
                        out,
                        k2,
                    ).len() <= 1 by {
                        lemma_values_update_same_name(h, i, w, k2);
                        assert(values_for_key(h, k2).len() <= 1);
                    }
                },
                None => {
                    lemma_appended_keeps_well_formed(h, key, w);
                    assert(out == appended(h, key, w));
                },
            }
        }
    }
}

proof fn lemma_init_entries_well_formed(es: Seq<HeaderInit>)
    ensures
        init_entries(es) matches Ok(h) ==> well_formed_entries(h),
    decreases es.len(),
{
    if es.len() > 0 {
        lemma_init_entries_well_formed(es.drop_last());
        match init_entries(es.drop_last()) {
            Ok(h) => match es.last() {
                HeaderInit::Pair(k, v) => {
                    if valid_header_name(header_key(k@)) && valid_header_value(v@) {
                        assert(header_key(k@) == unicode_lowercase(k@));
                        lemma_appended_keeps_well_formed(h, header_key(k@), v@);
                    }
                },
                HeaderInit::Unpaired => {},
            },
            Err(_) => {},
        }
    } else {
        assert(forall|k: Seq<char>| #[trigger] values_for_key(Seq::<(Seq<char>, Seq<char>)>::empty(), k).len() == 0);
    }
}

/// The list that an initializer array gives, once sorted, is well formed.
pub proof fn law_init_well_formed(es: Seq<HeaderInit>)
    ensures
        init_entries(es) matches Ok(h) ==> well_formed_entries(sorted_by_name(h)),
{
    lemma_init_entries_well_formed(es);
    if let Ok(h) = init_entries(es) {
        let out = sorted_by_name(h);
        lemma_sorted_within(h);
        lemma_entries_within_wf(out, h);
        assert forall|k2: Seq<char>| k2 != set_cookie_name() implies #[trigger] values_for_key(
            out,
            k2,
        ).len() <= 1 by {
            law_sorted_by_name(h, k2);
        }
    }
}

proof fn lemma_map_entries_within(m: HeaderEntries)
    ensures
        forall|i: int|
            0 <= i < map_entries(m).len() ==> lowercased_name(#[trigger] map_entries(m)[i].0)
                && is_normalized(map_entries(m)[i].1),
    decreases m.len(),
{
    if m.len() > 0 {
        lemma_map_entries_within(m.drop_last());
        if valid_header_name(m.last().0) {
            let prev = map_entries(m.drop_last());
            let e = (header_key(m.last().0), normalize_header_value(m.last().1));
            assert(map_entries(m) == prev.push(e));
            assert(e.0 == unicode_lowercase(m.last().0));
            law_normalized_form(m.last().1);
            assert forall|i: int| 0 <= i < map_entries(m).len() implies lowercased_name(
                #[trigger] map_entries(m)[i].0,
            ) && is_normalized(map_entries(m)[i].1) by {
                if i < prev.len() {
                    assert(map_entries(m)[i] == prev[i]);
                }
            }
        }
    }
}

/// The names that a string-keyed map gives are lowercased and its values
/// normalized. (The values are not checked, and two names that lowercase
/// alike give two entries.)
pub proof fn law_map_entries_lowercased(m: HeaderEntries)
    ensures
        forall|i: int|
            0 <= i < map_entries(m).len() ==> lowercased_name(#[trigger] map_entries(m)[i].0)
                && is_normalized(map_entries(m)[i].1),
{
    lemma_map_entries_within(m);
}

// ---------------------------------------------------------------------------
// What names and values are accepted, and what decoding keeps.
// ---------------------------------------------------------------------------

/// The token characters are exactly RFC 7230's `tchar`: the ASCII letters
/// and digits and ``!#$%&'*+-.^_`|~``.
pub proof fn law_token_chars(c: char)
    ensures
        is_token_char(c) <==> (('a' <= c && c <= 'z') || ('A' <= c && c <= 'Z') || ('0' <= c
            && c <= '9') || c == '!' || c == '#' || c == '$' || c == '%' || c == '&' || c
            == '\'' || c == '*' || c == '+' || c == '-' || c == '.' || c == '^' || c == '_' || c
            == '`' || c == '|' || c == '~'),
{
}

/// A name made of letters, digits and ``!#$%&'*+-.^_`|~`` only, and not
/// empty, is a valid header name.
pub proof fn law_tchar_names_are_valid(s: Seq<char>)
    requires
        s.len() > 0,
        forall|i: int|
            0 <= i < s.len() ==> {
                let c = #[trigger] s[i];
                ('a' <= c && c <= 'z') || ('A' <= c && c <= 'Z') || ('0' <= c && c <= '9') || c
                    == '!' || c == '#' || c == '$' || c == '%' || c == '&' || c == '\'' || c == '*'
                    || c == '+' || c == '-' || c == '.' || c == '^' || c == '_' || c == '`' || c
                    == '|' || c == '~'
            },
    ensures
        valid_header_name(s),
{
    assert forall|i: int| 0 <= i < s.len() implies #[trigger] is_token_char(s[i]) by {
        law_token_chars(s[i]);
    }
}

/// A (lowercased) name and a value are accepted exactly when the name is a
/// valid header name and the value, once normalized, is a valid header
/// value: a value is judged after normalization, never before. A bad name
/// is reported before a bad value.
pub proof fn law_entry_accepted(k: Seq<char>, v: Seq<char>)
    ensures
        entry_error(k, v) is None <==> (valid_header_name(k) && valid_header_value(
            normalize_header_value(v),
        )),
        !valid_header_name(k) ==> entry_error(k, v) == Some(HeaderError::InvalidKey),
        valid_header_name(k) && !valid_header_value(normalize_header_value(v)) ==> entry_error(
            k,
            v,
        ) == Some(HeaderError::InvalidValue),
        name_value_error(k, v) is None <==> (valid_header_name(header_key(k))
            && valid_header_value(normalize_header_value(v))),
{
}

proof fn lemma_without_line_breaks_valid(s: Seq<char>)
    requires
        forall|i: int| 0 <= i < s.len() ==> is_value_char(#[trigger] s[i]) || is_line_break(s[i]),
    ensures
        valid_header_value(without_line_breaks(s)),
    decreases s.len(),
{
    if s.len() > 0 {
        let t = s.drop_last();
        assert forall|i: int| 0 <= i < t.len() implies is_value_char(#[trigger] t[i])
            || is_line_break(t[i]) by {
            assert(t[i] == s[i]);
        }
        lemma_without_line_breaks_valid(t);
        if !is_line_break(s.last()) {
            let w = without_line_breaks(t);
            assert(is_value_char(s[s.len() - 1]));
            assert forall|i: int| 0 <= i < w.push(s.last()).len() implies #[trigger] is_value_char(
                w.push(s.last())[i],
            ) by {
                if i < w.len() {
                    assert(w.push(s.last())[i] == w[i]);
                }
            }
        }
    }
}

proof fn lemma_trim_start_valid(s: Seq<char>)
    requires
        valid_header_value(s),
    ensures
        valid_header_value(trim_start_ws(s)),
    decreases s.len(),
{
    if s.len() > 0 && is_ws(s[0]) {
        let t = s.drop_first();
        assert forall|i: int| 0 <= i < t.len() implies #[trigger] is_value_char(t[i]) by {
            assert(t[i] == s[i + 1]);
        }
        lemma_trim_start_valid(t);
    }
}

proof fn lemma_trim_end_valid(s: Seq<char>)
    requires
        valid_header_value(s),
    ensures
        valid_header_value(trim_end_ws(s)),
    decreases s.len(),
{
    if s.len() > 0 && is_ws(s.last()) {
        let t = s.drop_last();
        assert forall|i: int| 0 <= i < t.len() implies #[trigger] is_value_char(t[i]) by {
            assert(t[i] == s[i]);
        }
        lemma_trim_end_valid(t);
    }
}

proof fn lemma_collapse_prefix_valid(s: Seq<char>, n: int)
    requires
        valid_header_value(s),
        0 <= n <= s.len(),
    ensures
        valid_header_value(collapse_ws_prefix(s, n)),
    decreases n,
{
    if n > 0 {
        lemma_collapse_prefix_valid(s, n - 1);
        let p = collapse_ws_prefix(s, n - 1);
        if kept_after_collapse(s, n - 1) {
            assert(is_value_char(s[n - 1]));
            assert forall|i: int| 0 <= i < p.push(s[n - 1]).len() implies #[trigger] is_value_char(
                p.push(s[n - 1])[i],
            ) by {
                if i < p.len() {
                    assert(p.push(s[n - 1])[i] == p[i]);
                }
            }
        }
    }
}

/// A value made of allowed characters and line breaks (CR, LF) is accepted
/// once normalized: line breaks, as in a value read with its line ending,
/// never refuse a value.
pub proof fn law_line_breaks_never_refuse(v: Seq<char>)
    requires
        forall|i: int| 0 <= i < v.len() ==> is_value_char(#[trigger] v[i]) || is_line_break(v[i]),
    ensures
        valid_header_value(normalize_header_value(v)),
        forall|k: Seq<char>| valid_header_name(k) ==> #[trigger] entry_error(k, v) is None,
{
    lemma_without_line_breaks_valid(v);
    let a = without_line_breaks(v);
    lemma_trim_start_valid(a);
    let b = trim_start_ws(a);
    lemma_trim_end_valid(b);
    let c = trim_end_ws(b);
    lemma_collapse_prefix_valid(c, c.len() as int);
}

/// The entries built from a header map are the map's pairs, one for one
/// and in order: each name as it is, each value the lossy UTF-8 decoding of
/// its bytes, with nothing else done to it.
pub proof fn law_decoded_entries_keep_bytes(m: Seq<(Seq<char>, Seq<u8>)>)
    ensures
        decoded_entries(m).len() == m.len(),
        forall|i: int|
            0 <= i < m.len() ==> (#[trigger] decoded_entries(m)[i]).0 == m[i].0
                && decoded_entries(m)[i].1 == utf8_lossy_text(m[i].1),
{
}

} // verus!
