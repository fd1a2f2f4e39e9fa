//! Stream id filtering: wildcard patterns, regular expressions, prefixes and
//! suffixes.
use vstd::prelude::*;
use vstd::utf8::{decode_utf8, valid_utf8};

use crate::bytes::{ends_with, is_prefix_of, is_suffix_of, starts_with};

verus! {

#[verifier::external_type_specification]
#[verifier::external_body]
pub struct ExRegex(regex::Regex);

/// Whether `regex::Regex::new` accepts `pattern`.
pub uninterp spec fn regex_compiles(pattern: Seq<char>) -> bool;

/// Whether the regex compiled from `pattern` matches somewhere in `text`
/// (`regex::Regex::is_match`).
pub uninterp spec fn regex_is_match(pattern: Seq<char>, text: Seq<char>) -> bool;

/// A compiled regular expression and the pattern it was compiled from.
pub struct CompiledRegex {
    re: regex::Regex,
    source: String,
}

impl CompiledRegex {
    /// The pattern this regex was compiled from.
    pub closed spec fn pattern(&self) -> Seq<char> {
        self.source@
    }
}

/// `regex::Regex::new`.  Assumed to succeed or fail as a function of the
/// pattern alone; the compiled regex keeps a copy of the pattern.
#[verifier::external_body]
fn compile_regex(pattern: &str) -> (r: Option<CompiledRegex>)
    ensures
        r is Some <==> regex_compiles(pattern@),
        r matches Some(c) ==> c.pattern() == pattern@,
{
    match regex::Regex::new(pattern) {
        Ok(re) => Some(CompiledRegex { re, source: pattern.to_string() }),
        Err(_) => None,
    }
}

/// `regex::Regex::is_match`.  Assumed to depend on the pattern and the text
/// alone.
#[verifier::external_body]
fn regex_find(re: &CompiledRegex, text: &str) -> (r: bool)
    ensures
        r == regex_is_match(re.pattern(), text@),
{
    re.re.is_match(text)
}

/// `std::str::from_utf8`: the text that `bytes` encode, or `None` when they
/// are not valid UTF-8.
#[verifier::external_body]
pub(crate) fn utf8_text(bytes: &[u8]) -> (r: Option<&str>)
    ensures
        r is Some <==> valid_utf8(bytes@),
        r matches Some(s) ==> s@ == decode_utf8(bytes@),
{
    std::str::from_utf8(bytes).ok()
}

/// `String::push`.
#[verifier::external_body]
pub(crate) fn push_char(s: &mut String, c: char)
    ensures
        final(s)@ == old(s)@.push(c),
{
    s.push(c)
}

/// Why a filtering request failed.
#[derive(Debug, Clone, Copy, PartialEq, Eq, Structural)]
pub enum FilterError {
    /// The pattern given to `wildcard_to_regex` is not UTF-8.
    InvalidUtf8,
    /// The text is not UTF-8.
    InvalidUtf8Text,
    /// The pattern is not UTF-8.
    InvalidUtf8Pattern,
    /// The pattern does not compile as a regular expression.
    InvalidRegex,
}

/// The characters that a wildcard pattern escapes.
pub open spec fn is_regex_special(c: char) -> bool {
    c == '.' || c == '^' || c == '$' || c == '+' || c == '{' || c == '}' || c == '[' || c == ']'
        || c == '\\' || c == '|' || c == '(' || c == ')'
}

/// The regex text for one wildcard character: `*` is `(?s:.*)` (any run of
/// characters, newlines included), `?` is `(?s:.)` (any one character),
/// special characters are escaped, anything else stands for itself.
pub open spec fn wildcard_piece(c: char) -> Seq<char> {
    if c == '*' {
        seq!['(', '?', 's', ':', '.', '*', ')']
    } else if c == '?' {
        seq!['(', '?', 's', ':', '.', ')']
    } else if is_regex_special(c) {
        seq!['\\', c]
    } else {
        seq![c]
    }
}

/// The regex text for a wildcard pattern, without anchors.
pub open spec fn wildcard_body(p: Seq<char>) -> Seq<char>
    decreases p.len(),
{
    if p.len() == 0 {
        Seq::empty()
    } else {
        wildcard_body(p.drop_last()) + wildcard_piece(p.last())
    }
}

/// The anchored regex for a wildcard pattern: `^`, the pieces, `$`.
pub open spec fn wildcard_regex(p: Seq<char>) -> Seq<char> {
    seq!['^'] + wildcard_body(p) + seq!['$']
}

/// Whether `text` (bytes) is UTF-8 and matched by the regex `pattern`.
pub open spec fn text_matches(pattern: Seq<char>, text: Seq<u8>) -> bool {
    valid_utf8(text) && regex_is_match(pattern, decode_utf8(text))
}

/// The contents of a list of buffers.
pub open spec fn views(items: Seq<Vec<u8>>) -> Seq<Seq<u8>> {
    items.map_values(|v: Vec<u8>| v@)
}

/// The items that the regex `pattern` matches, in order.
pub open spec fn regex_filtered(items: Seq<Seq<u8>>, pattern: Seq<char>) -> Seq<Seq<u8>> {
    items.filter(|x: Seq<u8>| text_matches(pattern, x))
}

/// Builds the anchored regex for a UTF-8 wildcard pattern.
fn wildcard_regex_of(pattern: &str) -> (r: String)
    ensures
        r@ == wildcard_regex(pattern@),
{
    let mut result = String::new();
    push_char(&mut result, '^');
    let ghost p = pattern@;
    let mut done: Ghost<Seq<char>> = Ghost(Seq::empty());
    assert(p.take(0) =~= Seq::<char>::empty());
    for c in it: pattern.chars()
        invariant
            it.seq() == p,
            done@ == p.take(it.index()),
            result@ == seq!['^'] + wildcard_body(done@),
    {
        proof {
            assert(p.take(it.index() + 1).drop_last() =~= p.take(it.index()));
        }
        let ghost before = result@;
        if c == '*' {
            result.append("(?s:.*)");
            proof {
                reveal_strlit("(?s:.*)");
            }
        } else if c == '?' {
            result.append("(?s:.)");
            proof {
                reveal_strlit("(?s:.)");
            }
        } else if c == '.' || c == '^' || c == '$' || c == '+' || c == '{' || c == '}' || c == '['
            || c == ']' || c == '\\' || c == '|' || c == '(' || c == ')' {
            push_char(&mut result, '\\');
            push_char(&mut result, c);
        } else {
            push_char(&mut result, c);
        }
        proof {
            done@ = p.take(it.index() + 1);
            assert(done@.last() == c);
            assert(result@ =~= before + wildcard_piece(c));
        }
    }
    assert(p.take(p.len() as int) =~= p);
    push_char(&mut result, '$');
    result
}

/// Converts a wildcard pattern (`*` any run, `?` any one character) into an
/// anchored regular expression with every other special character escaped.
pub fn wildcard_to_regex(pattern: &[u8]) -> (r: Result<String, FilterError>)
    ensures
        r is Ok <==> valid_utf8(pattern@),
        r matches Ok(s) ==> s@ == wildcard_regex(decode_utf8(pattern@)),
        r matches Err(e) ==> e == FilterError::InvalidUtf8,
{
    match utf8_text(pattern) {
        Some(p) => Ok(wildcard_regex_of(p)),
        None => Err(FilterError::InvalidUtf8),
    }
}

/// The positions (as `u32`) of the items that the regex `pattern` matches.
pub open spec fn matching_positions(items: Seq<Seq<u8>>, pattern: Seq<char>) -> Seq<u32>
    decreases items.len(),
{
    if items.len() == 0 {
        Seq::empty()
    } else {
        let front = matching_positions(items.drop_last(), pattern);
        if text_matches(pattern, items.last()) {
            front.push((items.len() - 1) as u32)
        } else {
            front
        }
    }
}

/// The positions that `match_indices` reports pick out, one for one and in
/// order, the items that `filter_by_wildcard` keeps, so that
/// `count_matches` is their number (positions are exact while they fit in
/// `u32`).
pub proof fn law_positions_pick_filtered(items: Seq<Seq<u8>>, pattern: Seq<char>)
    requires
        items.len() <= u32::MAX + 1,
    ensures
        matching_positions(items, pattern).len() == regex_filtered(items, pattern).len(),
        forall|m: int|
            0 <= m < matching_positions(items, pattern).len() ==> items[#[trigger] matching_positions(
                items,
                pattern,
            )[m] as int] == regex_filtered(items, pattern)[m],
    decreases items.len(),
{
    reveal_with_fuel(Seq::<_>::filter, 1);
    if items.len() > 0 {
        let front = items.drop_last();
        law_positions_pick_filtered(front, pattern);
        let ps = matching_positions(items, pattern);
        let fs = regex_filtered(items, pattern);
        let pf = matching_positions(front, pattern);
        let ff = regex_filtered(front, pattern);
        assert(fs == if text_matches(pattern, items.last()) {
            ff.push(items.last())
        } else {
            ff
        });
        assert forall|m: int| 0 <= m < ps.len() implies items[#[trigger] ps[m] as int] == fs[m] by {
            if m < pf.len() {
                assert(ps[m] == pf[m]);
                assert(front[pf[m] as int] == ff[m]);
                assert(pf[m] < front.len()) by {
                    lemma_positions_below(front, pattern);
                }
                assert(items[pf[m] as int] == front[pf[m] as int]);
            } else {
                assert(ps[m] as int == items.len() - 1);
            }
        }
    }
}

/// Every reported position is below the number of items (while they fit in
/// `u32`).
proof fn lemma_positions_below(items: Seq<Seq<u8>>, pattern: Seq<char>)
    requires
        items.len() <= u32::MAX + 1,
    ensures
        forall|m: int|
            0 <= m < matching_positions(items, pattern).len() ==> (#[trigger] matching_positions(
                items,
                pattern,
            )[m] as int) < items.len(),
    decreases items.len(),
{
    if items.len() > 0 {
        let front = items.drop_last();
        lemma_positions_below(front, pattern);
        let ps = matching_positions(items, pattern);
        let pf = matching_positions(front, pattern);
        assert forall|m: int| 0 <= m < ps.len() implies (#[trigger] ps[m] as int) < items.len() by {
            if m < pf.len() {
                assert(ps[m] == pf[m]);
            } else {
                assert(ps[m] as int == items.len() - 1);
            }
        }
    }
}

/// While the positions fit in `u32`, they are strictly increasing, below the
/// number of items, and are exactly the positions of the matching items.
proof fn lemma_positions_shape(items: Seq<Seq<u8>>, pattern: Seq<char>)
    requires
        items.len() <= u32::MAX + 1,
    ensures
        ({
            let ps = matching_positions(items, pattern);
            &&& forall|a: int, b: int| 0 <= a < b < ps.len() ==> ps[a] < ps[b]
            &&& forall|m: int| 0 <= m < ps.len() ==> (#[trigger] ps[m] as int) < items.len()
            &&& forall|i: int|
                0 <= i < items.len() ==> (ps.contains(i as u32) <==> text_matches(
                    pattern,
                    #[trigger] items[i],
                ))
        }),
    decreases items.len(),
{
    lemma_positions_below(items, pattern);
    if items.len() > 0 {
        let front = items.drop_last();
        lemma_positions_shape(front, pattern);
        let ps = matching_positions(items, pattern);
        let pf = matching_positions(front, pattern);
        let last = (items.len() - 1) as u32;
        assert(last as int == items.len() - 1);
        assert forall|i: int|
            0 <= i < items.len() implies (ps.contains(i as u32) <==> text_matches(
                pattern,
                #[trigger] items[i],
            )) by {
            if i < front.len() {
                assert(front[i] == items[i]);
                assert((i as u32) as int == i);
                if ps.contains(i as u32) {
                    let m = choose|m: int| 0 <= m < ps.len() && ps[m] == i as u32;
                    if m < pf.len() {
                        assert(pf[m] == ps[m]);
                        assert(pf.contains(i as u32));
                    } else {
                        assert(ps[m] == last);
                    }
                }
                if pf.contains(i as u32) {
                    let m = choose|m: int| 0 <= m < pf.len() && pf[m] == i as u32;
                    assert(ps[m] == pf[m]);
                }
            } else {
                if text_matches(pattern, items[i]) {
                    assert(ps[ps.len() - 1] == last);
                }
                if ps.contains(i as u32) {
                    let m = choose|m: int| 0 <= m < ps.len() && ps[m] == i as u32;
                    if m < pf.len() {
                        assert(pf[m] == ps[m]);
                        assert((pf[m] as int) < front.len());
                    }
                }
            }
        }
        assert forall|a: int, b: int| 0 <= a < b < ps.len() implies ps[a] < ps[b] by {
            if b < pf.len() {
                assert(ps[a] == pf[a] && ps[b] == pf[b]);
            } else {
                assert(ps[a] == pf[a]);
                assert((pf[a] as int) < front.len());
            }
        }
    }
}

/// The items that start with `prefix`, in order.
pub open spec fn prefix_filtered(items: Seq<Seq<u8>>, prefix: Seq<u8>) -> Seq<Seq<u8>> {
    items.filter(|x: Seq<u8>| is_prefix_of(prefix, x))
}

/// The items that end with `suffix`, in order.
pub open spec fn suffix_filtered(items: Seq<Seq<u8>>, suffix: Seq<u8>) -> Seq<Seq<u8>> {
    items.filter(|x: Seq<u8>| is_suffix_of(suffix, x))
}

/// `x` ends with the bytes of `suffix`, compared position by position.
pub open spec fn ends_with_bytes(x: Seq<u8>, suffix: Seq<u8>) -> bool {
    x.len() >= suffix.len() && forall|i: int|
        0 <= i < suffix.len() ==> #[trigger] x[x.len() - suffix.len() + i] == suffix[i]
}

/// `x` starts with the bytes of `prefix`, compared position by position.
pub open spec fn starts_with_bytes(x: Seq<u8>, prefix: Seq<u8>) -> bool {
    x.len() >= prefix.len() && forall|i: int| 0 <= i < prefix.len() ==> #[trigger] x[i] == prefix[i]
}

proof fn lemma_suffix_bytes(x: Seq<u8>, suffix: Seq<u8>)
    ensures
        is_suffix_of(suffix, x) <==> ends_with_bytes(x, suffix),
{
    if ends_with_bytes(x, suffix) {
        let t = x.subrange(x.len() - suffix.len(), x.len() as int);
        assert forall|j: int| 0 <= j < suffix.len() implies t[j] == suffix[j] by {
            assert(x[x.len() - suffix.len() + j] == suffix[j]);
        }
        assert(t =~= suffix);
    }
    if is_suffix_of(suffix, x) {
        assert forall|i: int| 0 <= i < suffix.len() implies #[trigger] x[x.len() - suffix.len() + i]
            == suffix[i] by {
            assert(x.subrange(x.len() - suffix.len(), x.len() as int)[i] == suffix[i]);
        }
    }
}

proof fn lemma_prefix_bytes(x: Seq<u8>, prefix: Seq<u8>)
    ensures
        is_prefix_of(prefix, x) <==> starts_with_bytes(x, prefix),
{
    if starts_with_bytes(x, prefix) {
        assert(x.subrange(0, prefix.len() as int) =~= prefix);
    }
    if is_prefix_of(prefix, x) {
        assert forall|i: int| 0 <= i < prefix.len() implies #[trigger] x[i] == prefix[i] by {
            assert(x.subrange(0, prefix.len() as int)[i] == prefix[i]);
        }
    }
}

/// Suffix filtering keeps exactly the items that end with the suffix: an
/// item is in the result iff it is an item ending with the suffix, and
/// adding an item to the input adds it to the end of the result iff it ends
/// with the suffix.
pub proof fn law_suffix_filter(items: Seq<Seq<u8>>, suffix: Seq<u8>, x: Seq<u8>)
    ensures
        suffix_filtered(items, suffix).contains(x) <==> (items.contains(x) && ends_with_bytes(
            x,
            suffix,
        )),
        suffix_filtered(items.push(x), suffix) == if ends_with_bytes(x, suffix) {
            suffix_filtered(items, suffix).push(x)
        } else {
            suffix_filtered(items, suffix)
        },
{
    let f = |y: Seq<u8>| is_suffix_of(suffix, y);
    lemma_suffix_bytes(x, suffix);
    reveal_with_fuel(Seq::<_>::filter, 1);
    assert(items.push(x).drop_last() =~= items);
    if items.filter(f).contains(x) {
        items.lemma_filter_contains_rev(f, x);
        let m = choose|m: int| 0 <= m < items.filter(f).len() && items.filter(f)[m] == x;
        items.lemma_filter_pred(f, m);
    }
    if items.contains(x) && f(x) {
        let k = choose|k: int| 0 <= k < items.len() && items[k] == x;
        items.lemma_filter_contains(f, k);
    }
}

/// Prefix filtering keeps exactly the items that start with the prefix, in
/// the same sense as suffix filtering.
pub proof fn law_prefix_filter(items: Seq<Seq<u8>>, prefix: Seq<u8>, x: Seq<u8>)
    ensures
        prefix_filtered(items, prefix).contains(x) <==> (items.contains(x) && starts_with_bytes(
            x,
            prefix,
        )),
        prefix_filtered(items.push(x), prefix) == if starts_with_bytes(x, prefix) {
            prefix_filtered(items, prefix).push(x)
        } else {
            prefix_filtered(items, prefix)
        },
{
    let f = |y: Seq<u8>| is_prefix_of(prefix, y);
    lemma_prefix_bytes(x, prefix);
    reveal_with_fuel(Seq::<_>::filter, 1);
    assert(items.push(x).drop_last() =~= items);
    if items.filter(f).contains(x) {
        items.lemma_filter_contains_rev(f, x);
        let m = choose|m: int| 0 <= m < items.filter(f).len() && items.filter(f)[m] == x;
        items.lemma_filter_pred(f, m);
    }
    if items.contains(x) && f(x) {
        let k = choose|k: int| 0 <= k < items.len() && items[k] == x;
        items.lemma_filter_contains(f, k);
    }
}

/// A copy of `s`.
fn copy_bytes(s: &[u8]) -> (r: Vec<u8>)
    ensures
        r@ == s@,
{
    let mut v: Vec<u8> = Vec::new();
    crate::bytes::append_bytes(&mut v, s);
    assert(v@ =~= s@);
    v
}

proof fn lemma_views_take_push(items: Seq<Vec<u8>>, i: int)
    requires
        0 <= i < items.len(),
    ensures
        views(items.take(i + 1)) == views(items.take(i)).push(items[i]@),
        views(items.take(i + 1)).drop_last() == views(items.take(i)),
        views(items.take(i + 1)).last() == items[i]@,
{
    assert(views(items.take(i + 1)) =~= views(items.take(i)).push(items[i]@));
    assert(views(items.take(i + 1)).drop_last() =~= views(items.take(i)));
}

proof fn lemma_views_take_all(items: Seq<Vec<u8>>)
    ensures
        views(items.take(items.len() as int)) == views(items),
{
    assert(items.take(items.len() as int) =~= items);
}

/// Whether `text` is UTF-8 and `re` matches it.
fn item_matches(re: &CompiledRegex, text: &[u8]) -> (r: bool)
    ensures
        r == text_matches(re.pattern(), text@),
{
    match utf8_text(text) {
        Some(t) => regex_find(re, t),
        None => false,
    }
}

/// The items that `re` matches, in order.
fn filter_with(items: &[Vec<u8>], re: &CompiledRegex) -> (r: Vec<Vec<u8>>)
    ensures
        views(r@) == regex_filtered(views(items@), re.pattern()),
{
    let mut out: Vec<Vec<u8>> = Vec::new();
    let mut i: usize = 0;
    assert(views(items@.take(0)) =~= Seq::<Seq<u8>>::empty());
    assert(views(out@) =~= Seq::<Seq<u8>>::empty());
    proof {
        reveal_with_fuel(Seq::<_>::filter, 1);
    }
    while i < items.len()
        invariant
            i <= items@.len(),
            views(out@) == regex_filtered(views(items@.take(i as int)), re.pattern()),
        decreases items@.len() - i,
    {
        proof {
            lemma_views_take_push(items@, i as int);
            reveal_with_fuel(Seq::<_>::filter, 1);
        }
        if item_matches(re, items[i].as_slice()) {
            let c = copy_bytes(items[i].as_slice());
            let ghost before = out@;
            out.push(c);
            assert(views(out@) =~= views(before).push(c@));
        }
        i = i + 1;
    }
    proof {
        lemma_views_take_all(items@);
    }
    out
}

/// Positions of the items that `re` matches.
fn positions_with(items: &[Vec<u8>], re: &CompiledRegex) -> (r: Vec<u32>)
    ensures
        r@ == matching_positions(views(items@), re.pattern()),
{
    let mut out: Vec<u32> = Vec::new();
    let mut i: usize = 0;
    assert(views(items@.take(0)) =~= Seq::<Seq<u8>>::empty());
    assert(out@ =~= Seq::<u32>::empty());
    while i < items.len()
        invariant
            i <= items@.len(),
            out@ == matching_positions(views(items@.take(i as int)), re.pattern()),
        decreases items@.len() - i,
    {
        proof {
            lemma_views_take_push(items@, i as int);
        }
        if item_matches(re, items[i].as_slice()) {
            out.push(i as u32);
        }
        i = i + 1;
    }
    proof {
        lemma_views_take_all(items@);
    }
    out
}

/// Number of items that `re` matches.
fn count_with(items: &[Vec<u8>], re: &CompiledRegex) -> (r: u64)
    ensures
        r == regex_filtered(views(items@), re.pattern()).len(),
{
    let mut count: u64 = 0;
    let mut i: usize = 0;
    assert(views(items@.take(0)) =~= Seq::<Seq<u8>>::empty());
    proof {
        reveal_with_fuel(Seq::<_>::filter, 1);
    }
    while i < items.len()
        invariant
            i <= items@.len(),
            count == regex_filtered(views(items@.take(i as int)), re.pattern()).len(),
            count <= i,
            i <= usize::MAX,
        decreases items@.len() - i,
    {
        proof {
            lemma_views_take_push(items@, i as int);
            reveal_with_fuel(Seq::<_>::filter, 1);
        }
        if item_matches(re, items[i].as_slice()) {
            count = count + 1;
        }
        i = i + 1;
    }
    proof {
        lemma_views_take_all(items@);
    }
    count
}

/// Whether `text` matches the wildcard `pattern` (whole text; `*` any run,
/// `?` any one character).
pub fn wildcard_match(text: &[u8], pattern: &[u8]) -> (r: Result<bool, FilterError>)
    ensures
        !valid_utf8(text@) ==> r == Err::<bool, FilterError>(FilterError::InvalidUtf8Text),
        valid_utf8(text@) && !valid_utf8(pattern@) ==> r == Err::<bool, FilterError>(
            FilterError::InvalidUtf8Pattern,
        ),
        valid_utf8(text@) && valid_utf8(pattern@) ==> {
            let re = wildcard_regex(decode_utf8(pattern@));
            if regex_compiles(re) {
                r == Ok::<bool, FilterError>(regex_is_match(re, decode_utf8(text@)))
            } else {
                r == Err::<bool, FilterError>(FilterError::InvalidRegex)
            }
        },
{
    let t = match utf8_text(text) {
        Some(t) => t,
        None => {
            return Err(FilterError::InvalidUtf8Text);
        },
    };
    let p = match utf8_text(pattern) {
        Some(p) => p,
        None => {
            return Err(FilterError::InvalidUtf8Pattern);
        },
    };
    let source = wildcard_regex_of(p);
    match compile_regex(source.as_str()) {
        Some(re) => Ok(regex_find(&re, t)),
        None => Err(FilterError::InvalidRegex),
    }
}

/// Whether the regular expression `regex_pattern` matches somewhere in `text`.
pub fn regex_match(text: &[u8], regex_pattern: &[u8]) -> (r: Result<bool, FilterError>)
    ensures
        !valid_utf8(text@) ==> r == Err::<bool, FilterError>(FilterError::InvalidUtf8Text),
        valid_utf8(text@) && !valid_utf8(regex_pattern@) ==> r == Err::<bool, FilterError>(
            FilterError::InvalidUtf8Pattern,
        ),
        valid_utf8(text@) && valid_utf8(regex_pattern@) ==> {
            let re = decode_utf8(regex_pattern@);
            if regex_compiles(re) {
                r == Ok::<bool, FilterError>(regex_is_match(re, decode_utf8(text@)))
            } else {
                r == Err::<bool, FilterError>(FilterError::InvalidRegex)
            }
        },
{
    let t = match utf8_text(text) {
        Some(t) => t,
        None => {
            return Err(FilterError::InvalidUtf8Text);
        },
    };
    let p = match utf8_text(regex_pattern) {
        Some(p) => p,
        None => {
            return Err(FilterError::InvalidUtf8Pattern);
        },
    };
    match compile_regex(p) {
        Some(re) => Ok(regex_find(&re, t)),
        None => Err(FilterError::InvalidRegex),
    }
}

/// Compiles a UTF-8 wildcard pattern.
fn compile_wildcard(pattern: &[u8]) -> (r: Result<CompiledRegex, FilterError>)
    ensures
        !valid_utf8(pattern@) ==> (r matches Err(e) && e == FilterError::InvalidUtf8Pattern),
        valid_utf8(pattern@) && !regex_compiles(wildcard_regex(decode_utf8(pattern@))) ==> (r matches Err(e)
            && e == FilterError::InvalidRegex),
        valid_utf8(pattern@) && regex_compiles(wildcard_regex(decode_utf8(pattern@))) ==> (r matches Ok(c)
            && c.pattern() == wildcard_regex(decode_utf8(pattern@))),
{
    let p = match utf8_text(pattern) {
        Some(p) => p,
        None => {
            return Err(FilterError::InvalidUtf8Pattern);
        },
    };
    let source = wildcard_regex_of(p);
    match compile_regex(source.as_str()) {
        Some(re) => Ok(re),
        None => Err(FilterError::InvalidRegex),
    }
}

/// Compiles a UTF-8 regular expression.
fn compile_pattern(pattern: &[u8]) -> (r: Result<CompiledRegex, FilterError>)
    ensures
        !valid_utf8(pattern@) ==> (r matches Err(e) && e == FilterError::InvalidUtf8Pattern),
        valid_utf8(pattern@) && !regex_compiles(decode_utf8(pattern@)) ==> (r matches Err(e) && e
            == FilterError::InvalidRegex),
        valid_utf8(pattern@) && regex_compiles(decode_utf8(pattern@)) ==> (r matches Ok(c)
            && c.pattern() == decode_utf8(pattern@)),
{
    let p = match utf8_text(pattern) {
        Some(p) => p,
        None => {
            return Err(FilterError::InvalidUtf8Pattern);
        },
    };
    match compile_regex(p) {
        Some(re) => Ok(re),
        None => Err(FilterError::InvalidRegex),
    }
}

/// The error, if any, of compiling a wildcard pattern.
pub open spec fn wildcard_error(pattern: Seq<u8>) -> Option<FilterError> {
    if !valid_utf8(pattern) {
        Some(FilterError::InvalidUtf8Pattern)
    } else if !regex_compiles(wildcard_regex(decode_utf8(pattern))) {
        Some(FilterError::InvalidRegex)
    } else {
        None
    }
}

/// The error, if any, of compiling a regular expression.
pub open spec fn regex_error(pattern: Seq<u8>) -> Option<FilterError> {
    if !valid_utf8(pattern) {
        Some(FilterError::InvalidUtf8Pattern)
    } else if !regex_compiles(decode_utf8(pattern)) {
        Some(FilterError::InvalidRegex)
    } else {
        None
    }
}

/// The items (UTF-8 ones only) that match the wildcard `pattern`, in order.
pub fn filter_by_wildcard(items: &[Vec<u8>], pattern: &[u8]) -> (r: Result<Vec<Vec<u8>>, FilterError>)
    ensures
        wildcard_error(pattern@) matches Some(e) ==> (r matches Err(e2) && e2 == e),
        wildcard_error(pattern@) is None ==> (r matches Ok(v) && views(v@) == regex_filtered(
            views(items@),
            wildcard_regex(decode_utf8(pattern@)),
        )),
{
    match compile_wildcard(pattern) {
        Ok(re) => Ok(filter_with(items, &re)),
        Err(e) => Err(e),
    }
}

/// The items (UTF-8 ones only) that the regular expression matches, in order.
pub fn filter_by_regex(items: &[Vec<u8>], regex_pattern: &[u8]) -> (r: Result<Vec<Vec<u8>>, FilterError>)
    ensures
        regex_error(regex_pattern@) matches Some(e) ==> (r matches Err(e2) && e2 == e),
        regex_error(regex_pattern@) is None ==> (r matches Ok(v) && views(v@) == regex_filtered(
            views(items@),
            decode_utf8(regex_pattern@),
        )),
{
    match compile_pattern(regex_pattern) {
        Ok(re) => Ok(filter_with(items, &re)),
        Err(e) => Err(e),
    }
}

/// Whether `text` starts with `prefix`.
pub fn has_prefix(text: &[u8], prefix: &[u8]) -> (r: bool)
    ensures
        r == is_prefix_of(prefix@, text@),
{
    starts_with(text, prefix)
}

/// Whether `text` ends with `suffix`.
pub fn has_suffix(text: &[u8], suffix: &[u8]) -> (r: bool)
    ensures
        r == is_suffix_of(suffix@, text@),
{
    ends_with(text, suffix)
}

/// The items that start with `prefix`, in order.
pub fn filter_by_prefix(items: &[Vec<u8>], prefix: &[u8]) -> (r: Vec<Vec<u8>>)
    ensures
        views(r@) == prefix_filtered(views(items@), prefix@),
        forall|x: Seq<u8>|
            #[trigger] views(r@).contains(x) <==> (views(items@).contains(x) && starts_with_bytes(x, prefix@)),
{
    let mut out: Vec<Vec<u8>> = Vec::new();
    let mut i: usize = 0;
    assert(views(items@.take(0)) =~= Seq::<Seq<u8>>::empty());
    assert(views(out@) =~= Seq::<Seq<u8>>::empty());
    proof {
        reveal_with_fuel(Seq::<_>::filter, 1);
    }
    while i < items.len()
        invariant
            i <= items@.len(),
            views(out@) == prefix_filtered(views(items@.take(i as int)), prefix@),
        decreases items@.len() - i,
    {
        proof {
            lemma_views_take_push(items@, i as int);
            reveal_with_fuel(Seq::<_>::filter, 1);
        }
        if starts_with(items[i].as_slice(), prefix) {
            let c = copy_bytes(items[i].as_slice());
            let ghost before = out@;
            out.push(c);
            assert(views(out@) =~= views(before).push(c@));
        }
        i = i + 1;
    }
    proof {
        lemma_views_take_all(items@);
    }
    proof {
        assert(views(out@) == prefix_filtered(views(items@), prefix@));
        assert forall|x: Seq<u8>|
            #[trigger] views(out@).contains(x) <==> (views(items@).contains(x) && starts_with_bytes(x, prefix@)) by {
            law_prefix_filter(views(items@), prefix@, x);
        }
    }
    out
}

/// The items that end with `suffix`, in order.
pub fn filter_by_suffix(items: &[Vec<u8>], suffix: &[u8]) -> (r: Vec<Vec<u8>>)
    ensures
        views(r@) == suffix_filtered(views(items@), suffix@),
        forall|x: Seq<u8>|
            #[trigger] views(r@).contains(x) <==> (views(items@).contains(x) && ends_with_bytes(x, suffix@)),
{
    let mut out: Vec<Vec<u8>> = Vec::new();
    let mut i: usize = 0;
    assert(views(items@.take(0)) =~= Seq::<Seq<u8>>::empty());
    assert(views(out@) =~= Seq::<Seq<u8>>::empty());
    proof {
        reveal_with_fuel(Seq::<_>::filter, 1);
    }
    while i < items.len()
        invariant
            i <= items@.len(),
            views(out@) == suffix_filtered(views(items@.take(i as int)), suffix@),
        decreases items@.len() - i,
    {
        proof {
            lemma_views_take_push(items@, i as int);
            reveal_with_fuel(Seq::<_>::filter, 1);
        }
        if ends_with(items[i].as_slice(), suffix) {
            let c = copy_bytes(items[i].as_slice());
            let ghost before = out@;
            out.push(c);
            assert(views(out@) =~= views(before).push(c@));
        }
        i = i + 1;
    }
    proof {
        lemma_views_take_all(items@);
    }
    proof {
        assert(views(out@) == suffix_filtered(views(items@), suffix@));
        assert forall|x: Seq<u8>|
            #[trigger] views(out@).contains(x) <==> (views(items@).contains(x) && ends_with_bytes(x, suffix@)) by {
            law_suffix_filter(views(items@), suffix@, x);
        }
    }
    out
}

/// The positions (0-based, as `u32`) of the items matching the wildcard
/// `pattern`.
pub fn match_indices(items: &[Vec<u8>], pattern: &[u8]) -> (r: Result<Vec<u32>, FilterError>)
    ensures
        wildcard_error(pattern@) matches Some(e) ==> (r matches Err(e2) && e2 == e),
        wildcard_error(pattern@) is None ==> (r matches Ok(v) && v@ == matching_positions(
            views(items@),
            wildcard_regex(decode_utf8(pattern@)),
        )),
        items@.len() <= u32::MAX + 1 ==> (r matches Ok(v) ==> {
            &&& forall|a: int, b: int| 0 <= a < b < v@.len() ==> v@[a] < v@[b]
            &&& forall|m: int| 0 <= m < v@.len() ==> (#[trigger] v@[m] as int) < items@.len()
            &&& forall|i: int|
                0 <= i < items@.len() ==> (v@.contains(i as u32) <==> text_matches(
                    wildcard_regex(decode_utf8(pattern@)),
                    #[trigger] items@[i]@,
                ))
        }),
{
    match compile_wildcard(pattern) {
        Ok(re) => {
            let v = positions_with(items, &re);
            proof {
                if items@.len() <= u32::MAX + 1 {
                    let pat = re.pattern();
                    lemma_positions_shape(views(items@), pat);
                    assert forall|i: int|
                        0 <= i < items@.len() implies (v@.contains(i as u32) <==> text_matches(
                            pat,
                            #[trigger] items@[i]@,
                        )) by {
                        assert(views(items@)[i] == items@[i]@);
                    }
                }
            }
            Ok(v)
        },
        Err(e) => Err(e),
    }
}

/// The number of items matching the wildcard `pattern`.
pub fn count_matches(items: &[Vec<u8>], pattern: &[u8]) -> (r: Result<u64, FilterError>)
    ensures
        wildcard_error(pattern@) matches Some(e) ==> (r matches Err(e2) && e2 == e),
        wildcard_error(pattern@) is None ==> (r matches Ok(n) && n == regex_filtered(
            views(items@),
            wildcard_regex(decode_utf8(pattern@)),
        ).len()),
{
    match compile_wildcard(pattern) {
        Ok(re) => Ok(count_with(items, &re)),
        Err(e) => Err(e),
    }
}

/// Whether `pattern` is UTF-8 and compiles as a regular expression.
pub fn is_valid_regex(pattern: &[u8]) -> (r: bool)
    ensures
        r == (valid_utf8(pattern@) && regex_compiles(decode_utf8(pattern@))),
{
    match utf8_text(pattern) {
        Some(p) => compile_regex(p).is_some(),
        None => false,
    }
}

} // verus!
