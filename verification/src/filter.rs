//! Filtering: per-field and free-text criteria, matched as regular
//! expressions or as case-insensitive substrings.

use crate::keys::{opt_text, texts};
use crate::model::Row;
use crate::text::{contains_chars, has_substring, lowered, lowered_chars, push_char, same_text};
use vstd::prelude::*;

verus! {

/// `regex::Regex`, a compiled regular expression. Nothing is known of what
/// is inside one but what the wrappers below state.
#[verifier::external_type_specification]
#[verifier::external_body]
pub struct ExRegex(regex::Regex);

/// Whether `regex::Regex::new` accepts the pattern.
pub uninterp spec fn regex_accepts(pattern: Seq<char>) -> bool;

/// The pattern that a compiled expression was made from, as
/// `regex::Regex::as_str` gives it.
pub uninterp spec fn regex_source(re: regex::Regex) -> Seq<char>;

/// Whether a compiled expression has a match anywhere in `text`, as
/// `regex::Regex::is_match` tells.
pub uninterp spec fn regex_matches(re: regex::Regex, text: Seq<char>) -> bool;

/// Whether the expression that `regex::Regex::new` makes of `pattern` has a
/// match anywhere in `text`.
pub uninterp spec fn pattern_matches(pattern: Seq<char>, text: Seq<char>) -> bool;

/// The expression matches what the expression that `regex::Regex::new`
/// makes of its pattern matches: it was compiled with no other options.
pub open spec fn is_plain(re: regex::Regex) -> bool {
    forall|text: Seq<char>| #[trigger] regex_matches(re, text) == pattern_matches(regex_source(re), text)
}

/// Two expressions match the same texts.
pub open spec fn match_alike(a: regex::Regex, b: regex::Regex) -> bool {
    forall|text: Seq<char>| #[trigger] regex_matches(a, text) == regex_matches(b, text)
}

/// `regex::Regex::new`: compiles the pattern, or fails on one that is invalid
/// or too large. The compiled expression remembers its pattern, and what it
/// matches depends on the pattern alone.
#[verifier::external_body]
fn compile_regex(pattern: &str) -> (res: Option<regex::Regex>)
    ensures
        res is Some <==> regex_accepts(pattern@),
        res matches Some(re) ==> regex_source(re) == pattern@,
        res matches Some(re) ==> forall|text: Seq<char>| #[trigger]
            regex_matches(re, text) == pattern_matches(pattern@, text),
{
    regex::Regex::new(pattern).ok()
}

/// `regex::Regex::is_match`: whether the expression matches anywhere in
/// `text`. The answer depends on the expression and the text alone.
#[verifier::external_body]
fn regex_is_match(re: &regex::Regex, text: &str) -> (res: bool)
    ensures
        res == regex_matches(*re, text@),
{
    re.is_match(text)
}

/// `regex::Regex::as_str`: the pattern that the expression was compiled from.
#[verifier::external_body]
fn regex_pattern(re: &regex::Regex) -> (res: &str)
    ensures
        res@ == regex_source(*re),
{
    re.as_str()
}

/// `regex::Regex::clone`: a copy with the same pattern that matches the
/// same texts.
#[verifier::external_body]
fn regex_clone(re: &regex::Regex) -> (res: regex::Regex)
    ensures
        regex_source(res) == regex_source(*re),
        match_alike(res, *re),
{
    re.clone()
}

/// The seven criteria and the way they are matched.
#[derive(Debug, Clone, PartialEq, Eq)]
pub struct Filters {
    pub text: String,
    pub level: String,
    pub corr: String,
    pub service: String,
    pub namespace: String,
    pub trace: String,
    pub request: String,
    pub regex_mode: bool,
}

impl Filters {
    /// No criterion is set.
    pub open spec fn is_clear(&self) -> bool {
        &&& self.text@.len() == 0
        &&& self.level@.len() == 0
        &&& self.corr@.len() == 0
        &&& self.service@.len() == 0
        &&& self.namespace@.len() == 0
        &&& self.trace@.len() == 0
        &&& self.request@.len() == 0
    }

    /// Filters without any criterion, matched as substrings.
    pub fn new() -> (f: Filters)
        ensures
            f.is_clear(),
            !f.regex_mode,
    {
        Filters {
            text: String::new(),
            level: String::new(),
            corr: String::new(),
            service: String::new(),
            namespace: String::new(),
            trace: String::new(),
            request: String::new(),
            regex_mode: false,
        }
    }
}

impl Default for Filters {
    /// Filters without any criterion, matched as substrings.
    fn default() -> (f: Filters)
        ensures
            f.is_clear(),
            !f.regex_mode,
    {
        Filters::new()
    }
}

/// A criterion constrains rows when its pattern is not empty and, in regex
/// mode, compiles. A pattern that does not compile constrains nothing.
pub open spec fn criterion_active(pattern: Seq<char>, regex_mode: bool) -> bool {
    pattern.len() > 0 && (regex_mode ==> regex_accepts(pattern))
}

/// Whether `value` meets an active criterion: in regex mode the expression
/// matches somewhere in it; otherwise it contains the pattern, both taken in
/// ASCII lower case.
pub open spec fn text_satisfies(pattern: Seq<char>, regex_mode: bool, value: Seq<char>) -> bool {
    if regex_mode {
        pattern_matches(pattern, value)
    } else {
        has_substring(lowered(value), lowered(pattern))
    }
}

/// Whether a field passes a criterion: the criterion is not active, or the
/// field is there and meets it.
pub open spec fn field_passes(pattern: Seq<char>, regex_mode: bool, field: Option<Seq<char>>) -> bool {
    criterion_active(pattern, regex_mode) ==> (field is Some && text_satisfies(
        pattern,
        regex_mode,
        field->0,
    ))
}

/// An optional text followed by a space, or nothing.
pub open spec fn with_space(field: Option<Seq<char>>) -> Seq<char> {
    match field {
        Some(s) => s.push(' '),
        None => Seq::empty(),
    }
}

/// The texts in order, each followed by a space.
pub open spec fn spaced(values: Seq<Seq<char>>) -> Seq<char>
    decreases values.len(),
{
    if values.len() == 0 {
        Seq::empty()
    } else {
        spaced(values.drop_last()) + values.last().push(' ')
    }
}

/// The text that the free-text criterion searches: message, correlation id,
/// level, service, namespace, trace id and request id, then every flattened
/// value in key order, each followed by a space.
pub open spec fn haystack(row: Row) -> Seq<char> {
    with_space(opt_text(row.msg)) + with_space(opt_text(row.corr)) + with_space(opt_text(row.level))
        + with_space(opt_text(row.service)) + with_space(opt_text(row.namespace)) + with_space(
        opt_text(row.trace_id),
    ) + with_space(opt_text(row.request_id)) + spaced(texts(row.flat.values@))
}

/// Whether a row passes the filters: every active criterion is met.
pub open spec fn row_matches(row: Row, f: Filters) -> bool {
    &&& field_passes(f.level@, f.regex_mode, opt_text(row.level))
    &&& field_passes(f.corr@, f.regex_mode, opt_text(row.corr))
    &&& field_passes(f.service@, f.regex_mode, opt_text(row.service))
    &&& field_passes(f.namespace@, f.regex_mode, opt_text(row.namespace))
    &&& field_passes(f.trace@, f.regex_mode, opt_text(row.trace_id))
    &&& field_passes(f.request@, f.regex_mode, opt_text(row.request_id))
    &&& field_passes(f.text@, f.regex_mode, Some(haystack(row)))
}

/// `picked` lists, in increasing order, exactly the indices of the rows that
/// pass the filters.
pub open spec fn is_selection(rows: Seq<Row>, f: Filters, picked: Seq<usize>) -> bool {
    &&& forall|k: int| 0 <= k < picked.len() ==> (#[trigger] picked[k]) < rows.len() && row_matches(rows[picked[k] as int], f)
    &&& forall|k: int, l: int| 0 <= k < l < picked.len() ==> picked[k] < picked[l]
    &&& forall|i: int| 0 <= i < rows.len() && row_matches(#[trigger] rows[i], f) ==> picked.contains(i as usize)
}

/// A row passes only where its level and its service each meet their
/// criterion; a row that lacks a field for which a criterion is active fails.
pub proof fn lemma_match_needs_each_criterion(row: Row, f: Filters)
    requires
        row_matches(row, f),
    ensures
        criterion_active(f.level@, f.regex_mode) ==> row.level is Some && text_satisfies(
            f.level@,
            f.regex_mode,
            row.level->0@,
        ),
        criterion_active(f.service@, f.regex_mode) ==> row.service is Some && text_satisfies(
            f.service@,
            f.regex_mode,
            row.service->0@,
        ),
{
}

/// With no criterion set every row passes.
pub proof fn lemma_clear_filters_pass_all(row: Row, f: Filters)
    requires
        f.is_clear(),
    ensures
        row_matches(row, f),
{
}

/// With no criterion set the selection is every row, in catalog order.
pub proof fn lemma_clear_filters_select_all(rows: Seq<Row>, f: Filters, picked: Seq<usize>)
    requires
        rows.len() <= usize::MAX,
        f.is_clear(),
        is_selection(rows, f, picked),
    ensures
        picked.len() == rows.len(),
        forall|i: int| 0 <= i < rows.len() ==> picked[i] == i,
{
    assert forall|i: usize| i < rows.len() implies picked.contains(i) by {
        lemma_clear_filters_pass_all(rows[i as int], f);
    }
    lemma_increasing_cover(picked, rows.len() as int);
}

/// A strictly increasing sequence of numbers below `n` that holds every
/// number below `n` is `0, 1, .., n - 1`.
proof fn lemma_increasing_cover(picked: Seq<usize>, n: int)
    requires
        0 <= n <= usize::MAX,
        forall|k: int| 0 <= k < picked.len() ==> (#[trigger] picked[k]) < n,
        forall|k: int, l: int| 0 <= k < l < picked.len() ==> picked[k] < picked[l],
        forall|i: usize| i < n ==> picked.contains(i),
    ensures
        picked.len() == n,
        forall|i: int| 0 <= i < n ==> picked[i] == i,
    decreases n,
{
    if n == 0 {
        if picked.len() > 0 {
            assert(picked[0] < n);
        }
    } else {
        assert(picked.contains((n - 1) as usize));
        let k = choose|k: int| 0 <= k < picked.len() && picked[k] == (n - 1) as usize;
        if k < picked.len() - 1 {
            assert(picked[k] < picked[picked.len() - 1]);
            assert(picked[picked.len() - 1] < n);
        }
        let rest = picked.drop_last();
        assert forall|i: usize| i < n - 1 implies rest.contains(i) by {
            assert(picked.contains(i));
            let j = choose|j: int| 0 <= j < picked.len() && picked[j] == i;
            assert(rest[j] == i);
        }
        assert forall|j: int| 0 <= j < rest.len() implies (#[trigger] rest[j]) < n - 1 by {
            assert(picked[j] < picked[k]);
        }
        lemma_increasing_cover(rest, n - 1);
        assert(k == picked.len() - 1);
        assert forall|i: int| 0 <= i < n implies picked[i] == i by {
            if i < n - 1 {
                assert(picked[i] == rest[i]);
            }
        }
    }
}

/// A compiled criterion.
pub enum Matcher {
    /// A regular expression.
    Pattern(regex::Regex),
    /// A substring in ASCII lower case.
    Substring(Vec<char>),
}

impl Matcher {
    /// Whether the matcher accepts `value`.
    pub open spec fn accepts(&self, value: Seq<char>) -> bool {
        match self {
            Matcher::Pattern(re) => regex_matches(*re, value),
            Matcher::Substring(needle) => has_substring(lowered(value), needle@),
        }
    }

    /// The matcher stands for this criterion.
    pub open spec fn stands_for(&self, pattern: Seq<char>, regex_mode: bool) -> bool {
        forall|value: Seq<char>| #[trigger] self.accepts(value) == text_satisfies(pattern, regex_mode, value)
    }

    /// Whether the matcher accepts `value`.
    pub fn test(&self, value: &str) -> (r: bool)
        ensures
            r == self.accepts(value@),
    {
        match self {
            Matcher::Pattern(re) => regex_is_match(re, value),
            Matcher::Substring(needle) => {
                let hay = lowered_chars(value);
                contains_chars(&hay, needle)
            },
        }
    }
}

/// Compiled expressions, kept so that a pattern is compiled once.
pub struct RegexCache {
    pub compiled: Vec<regex::Regex>,
}

impl RegexCache {
    /// Every expression held was compiled, with no other options, from a
    /// pattern that compiles.
    pub open spec fn wf(&self) -> bool {
        forall|i: int|
            0 <= i < self.compiled@.len() ==> regex_accepts(regex_source(#[trigger] self.compiled@[i]))
                && is_plain(self.compiled@[i])
    }

    /// The empty cache.
    pub fn new() -> (cache: RegexCache)
        ensures
            cache.wf(),
            cache.compiled@.len() == 0,
    {
        RegexCache { compiled: Vec::new() }
    }

    /// The cache holds an expression compiled from `pattern`.
    pub open spec fn holds(&self, pattern: Seq<char>) -> bool {
        exists|i: int| 0 <= i < self.compiled@.len() && regex_source(#[trigger] self.compiled@[i]) == pattern
    }

    /// The number of expressions held.
    pub fn len(&self) -> (n: usize)
        ensures
            n == self.compiled@.len(),
    {
        self.compiled.len()
    }

    /// The compiled form of `source`: from the cache where it is there, else
    /// compiled now and kept. Nothing for an empty or invalid pattern.
    pub fn compile(&mut self, source: &str) -> (res: Option<regex::Regex>)
        requires
            old(self).wf(),
        ensures
            final(self).wf(),
            res is Some <==> source@.len() > 0 && regex_accepts(source@),
            res matches Some(re) ==> regex_source(re) == source@ && is_plain(re),
            if res is Some && !old(self).holds(source@) {
                &&& final(self).compiled@.len() == old(self).compiled@.len() + 1
                &&& final(self).compiled@.drop_last() == old(self).compiled@
                &&& regex_source(final(self).compiled@.last()) == source@
            } else {
                final(self).compiled@ == old(self).compiled@
            },
    {
        if source.is_empty() {
            return None;
        }
        let mut i: usize = 0;
        while i < self.compiled.len()
            invariant
                i <= self.compiled.len(),
                self.wf(),
                self.compiled == old(self).compiled,
                source@.len() > 0,
                forall|k: int| 0 <= k < i ==> regex_source(#[trigger] self.compiled@[k]) != source@,
            decreases self.compiled.len() - i,
        {
            if same_text(regex_pattern(&self.compiled[i]), source) {
                assert(regex_source(self.compiled@[i as int]) == source@);
                let copy = regex_clone(&self.compiled[i]);
                proof {
                    lemma_copy_is_plain(self.compiled@[i as int], copy);
                }
                return Some(copy);
            }
            i += 1;
        }
        match compile_regex(source) {
            Some(re) => {
                let copy = regex_clone(&re);
                proof {
                    lemma_copy_is_plain(re, copy);
                }
                let ghost before = self.compiled@;
                self.compiled.push(re);
                assert(self.compiled@.drop_last() =~= before);
                Some(copy)
            },
            None => None,
        }
    }
}

/// A copy of a plain expression is plain.
proof fn lemma_copy_is_plain(re: regex::Regex, copy: regex::Regex)
    requires
        is_plain(re),
        regex_source(copy) == regex_source(re),
        match_alike(copy, re),
    ensures
        is_plain(copy),
{
    assert forall|text: Seq<char>| #[trigger]
        regex_matches(copy, text) == pattern_matches(regex_source(copy), text) by {
        assert(regex_matches(copy, text) == regex_matches(re, text));
    }
}

/// The matcher for a criterion, where the criterion is active.
pub fn build_matcher(cache: &mut RegexCache, pattern: &str, regex_mode: bool) -> (res: Option<Matcher>)
    requires
        old(cache).wf(),
    ensures
        final(cache).wf(),
        res is Some <==> criterion_active(pattern@, regex_mode),
        res matches Some(m) ==> m.stands_for(pattern@, regex_mode),
{
    if pattern.is_empty() {
        return None;
    }
    if regex_mode {
        match cache.compile(pattern) {
            Some(re) => {
                let m = Matcher::Pattern(re);
                assert(m.stands_for(pattern@, regex_mode));
                Some(m)
            },
            None => None,
        }
    } else {
        let m = Matcher::Substring(lowered_chars(pattern));
        assert(m.stands_for(pattern@, regex_mode));
        Some(m)
    }
}

/// Whether an optional field passes an optional matcher.
pub fn field_test(matcher: &Option<Matcher>, field: &Option<String>) -> (r: bool)
    ensures
        r == (matcher is Some ==> (field is Some && matcher->0.accepts(field->0@))),
{
    match matcher {
        Some(m) => match field {
            Some(value) => m.test(value.as_str()),
            None => false,
        },
        None => true,
    }
}

/// Appends an optional text and a space to `out`.
fn push_field(out: &mut String, field: &Option<String>)
    ensures
        final(out)@ == old(out)@ + with_space(opt_text(*field)),
{
    match field {
        Some(value) => {
            out.append(value.as_str());
            push_char(out, ' ');
            assert(out@ =~= old(out)@ + value@.push(' '));
        },
        None => {
            assert(out@ =~= old(out)@ + Seq::<char>::empty());
        },
    }
}

/// The text that the free-text criterion searches in a row.
pub fn build_haystack(row: &Row) -> (out: String)
    ensures
        out@ == haystack(*row),
{
    let mut out = String::new();
    push_field(&mut out, &row.msg);
    push_field(&mut out, &row.corr);
    push_field(&mut out, &row.level);
    push_field(&mut out, &row.service);
    push_field(&mut out, &row.namespace);
    push_field(&mut out, &row.trace_id);
    push_field(&mut out, &row.request_id);
    let ghost head = out@;
    let ghost values = texts(row.flat.values@);
    assert(head =~= with_space(opt_text(row.msg)) + with_space(opt_text(row.corr)) + with_space(
        opt_text(row.level),
    ) + with_space(opt_text(row.service)) + with_space(opt_text(row.namespace)) + with_space(
        opt_text(row.trace_id),
    ) + with_space(opt_text(row.request_id)));
    let mut i: usize = 0;
    assert(values.take(0) =~= Seq::<Seq<char>>::empty());
    assert(out@ =~= head + spaced(values.take(0)));
    while i < row.flat.values.len()
        invariant
            i <= row.flat.values.len(),
            values == texts(row.flat.values@),
            out@ == head + spaced(values.take(i as int)),
        decreases row.flat.values.len() - i,
    {
        out.append(row.flat.values[i].as_str());
        push_char(&mut out, ' ');
        proof {
            assert(values.take(i + 1).drop_last() =~= values.take(i as int));
            assert(values.take(i + 1).last() == row.flat.values@[i as int]@);
            assert(out@ =~= head + spaced(values.take(i + 1)));
        }
        i += 1;
    }
    assert(values.take(values.len() as int) =~= values);
    out
}

/// The matchers of the seven criteria, in the order free text, level,
/// correlation id, service, namespace, trace id, request id.
pub struct Matchers {
    pub text: Option<Matcher>,
    pub level: Option<Matcher>,
    pub corr: Option<Matcher>,
    pub service: Option<Matcher>,
    pub namespace: Option<Matcher>,
    pub trace: Option<Matcher>,
    pub request: Option<Matcher>,
}

/// An optional matcher stands for a criterion.
pub open spec fn compiled_for(m: Option<Matcher>, pattern: Seq<char>, regex_mode: bool) -> bool {
    &&& m is Some <==> criterion_active(pattern, regex_mode)
    &&& m matches Some(x) ==> x.stands_for(pattern, regex_mode)
}

impl Matchers {
    /// The matchers stand for the criteria of `f`.
    pub open spec fn stand_for(&self, f: Filters) -> bool {
        &&& compiled_for(self.text, f.text@, f.regex_mode)
        &&& compiled_for(self.level, f.level@, f.regex_mode)
        &&& compiled_for(self.corr, f.corr@, f.regex_mode)
        &&& compiled_for(self.service, f.service@, f.regex_mode)
        &&& compiled_for(self.namespace, f.namespace@, f.regex_mode)
        &&& compiled_for(self.trace, f.trace@, f.regex_mode)
        &&& compiled_for(self.request, f.request@, f.regex_mode)
    }

    /// Compiles the criteria of `filters`.
    pub fn compile(filters: &Filters, cache: &mut RegexCache) -> (m: Matchers)
        requires
            old(cache).wf(),
        ensures
            final(cache).wf(),
            m.stand_for(*filters),
    {
        let mode = filters.regex_mode;
        let text = build_matcher(cache, filters.text.as_str(), mode);
        let level = build_matcher(cache, filters.level.as_str(), mode);
        let corr = build_matcher(cache, filters.corr.as_str(), mode);
        let service = build_matcher(cache, filters.service.as_str(), mode);
        let namespace = build_matcher(cache, filters.namespace.as_str(), mode);
        let trace = build_matcher(cache, filters.trace.as_str(), mode);
        let request = build_matcher(cache, filters.request.as_str(), mode);
        Matchers { text, level, corr, service, namespace, trace, request }
    }

    /// Whether `row` passes every criterion.
    pub fn test(&self, row: &Row, filters: &Filters) -> (r: bool)
        requires
            self.stand_for(*filters),
        ensures
            r == row_matches(*row, *filters),
    {
        if !field_test(&self.level, &row.level) {
            return false;
        }
        if !field_test(&self.corr, &row.corr) {
            return false;
        }
        if !field_test(&self.service, &row.service) {
            return false;
        }
        if !field_test(&self.namespace, &row.namespace) {
            return false;
        }
        if !field_test(&self.trace, &row.trace_id) {
            return false;
        }
        if !field_test(&self.request, &row.request_id) {
            return false;
        }
        match &self.text {
            Some(m) => {
                let hay = build_haystack(row);
                m.test(hay.as_str())
            },
            None => true,
        }
    }
}

/// The indices of the rows that pass `filters`, in the order of the rows.
pub fn apply_filters(rows: &Vec<Row>, filters: &Filters, cache: &mut RegexCache) -> (picked: Vec<usize>)
    requires
        old(cache).wf(),
    ensures
        final(cache).wf(),
        is_selection(rows@, *filters, picked@),
{
    let matchers = Matchers::compile(filters, cache);
    let mut picked: Vec<usize> = Vec::new();
    let mut idx: usize = 0;
    while idx < rows.len()
        invariant
            idx <= rows.len(),
            matchers.stand_for(*filters),
            forall|k: int|
                0 <= k < picked@.len() ==> (#[trigger] picked@[k]) < idx && row_matches(
                    rows@[picked@[k] as int],
                    *filters,
                ),
            forall|k: int, l: int| 0 <= k < l < picked@.len() ==> picked@[k] < picked@[l],
            forall|i: int|
                0 <= i < idx && row_matches(#[trigger] rows@[i], *filters) ==> picked@.contains(i as usize),
        decreases rows.len() - idx,
    {
        if matchers.test(&rows[idx], filters) {
            let ghost before = picked@;
            picked.push(idx);
            proof {
                assert forall|i: int|
                    0 <= i < idx + 1 && row_matches(#[trigger] rows@[i], *filters) implies picked@.contains(
                    i as usize,
                ) by {
                    if i < idx {
                        let k = choose|k: int| 0 <= k < before.len() && before[k] == i as usize;
                        assert(picked@[k] == i as usize);
                    } else {
                        assert(picked@[before.len() as int] == idx);
                    }
                }
            }
        }
        idx += 1;
    }
    picked
}

} // verus!
