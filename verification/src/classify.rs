//! The naming-style classifier: decides which lexical convention a file's
//! base name follows, trying the styles in a fixed priority order.

use vstd::prelude::*;

verus! {

/// The lexical naming convention of a file's base name.
#[derive(Debug, PartialEq, Eq, Hash, Clone, Copy, Structural)]
pub enum Naming {
    Pascal,
    Camel,
    Snake,
    Kebab,
    Lower,
    Upper,
    Unknown,
}

/// `c` is an ASCII lowercase letter.
pub open spec fn is_lower(c: char) -> bool {
    'a' <= c && c <= 'z'
}

/// `c` is an ASCII uppercase letter.
pub open spec fn is_upper(c: char) -> bool {
    'A' <= c && c <= 'Z'
}

/// The whole name is one or more lowercase letters: `^[a-z]+$`.
pub open spec fn is_lower_word(s: Seq<char>) -> bool {
    s.len() > 0 && forall|i: int| 0 <= i < s.len() ==> is_lower(#[trigger] s[i])
}

/// The whole name is one or more uppercase letters: `^[A-Z]+$`.
pub open spec fn is_upper_word(s: Seq<char>) -> bool {
    s.len() > 0 && forall|i: int| 0 <= i < s.len() ==> is_upper(#[trigger] s[i])
}

/// Every character is an ASCII letter and every uppercase letter is
/// immediately followed by a lowercase one, so each uppercase letter opens
/// a segment of shape `[A-Z][a-z]+`.
pub open spec fn segments_ok(s: Seq<char>) -> bool {
    forall|i: int|
        0 <= i < s.len() ==> {
            ||| is_lower(#[trigger] s[i])
            ||| (is_upper(s[i]) && i + 1 < s.len() && is_lower(s[i + 1]))
        }
}

/// How many uppercase letters `s` holds.
pub open spec fn upper_count(s: Seq<char>) -> nat
    decreases s.len(),
{
    if s.len() == 0 {
        0
    } else {
        upper_count(s.drop_last()) + if is_upper(s.last()) {
            1nat
        } else {
            0nat
        }
    }
}

/// The name matches `^[A-Z][a-z]+(?:[A-Z][a-z]+)+$`: two or more
/// capitalized word-segments concatenated with no separator.
pub open spec fn is_pascal(s: Seq<char>) -> bool {
    s.len() > 0 && is_upper(s[0]) && segments_ok(s) && upper_count(s) >= 2
}

/// The name matches `^[a-z]+(?:[A-Z][a-z]+)+$`: a lowercase head followed
/// by one or more capitalized word-segments.
pub open spec fn is_camel(s: Seq<char>) -> bool {
    s.len() > 0 && is_lower(s[0]) && segments_ok(s) && upper_count(s) >= 1
}

/// The name matches `^[a-z]+(?:<sep>[a-z]+)+$`: two or more lowercase runs
/// joined by single occurrences of `sep`.
pub open spec fn is_separated(s: Seq<char>, sep: char) -> bool {
    &&& s.len() > 0
    &&& is_lower(s[0])
    &&& is_lower(s[s.len() - 1])
    &&& forall|i: int| 0 <= i < s.len() ==> is_lower(#[trigger] s[i]) || s[i] == sep
    &&& forall|i: int| #![trigger s[i]] 1 <= i < s.len() ==> !(s[i - 1] == sep && s[i] == sep)
    &&& exists|i: int| #![trigger s[i]] 0 <= i < s.len() && s[i] == sep
}

/// The style of a name: the patterns are tried in priority order and the
/// first match decides; a name matching none of them is `Unknown`.
pub open spec fn classify(s: Seq<char>) -> Naming {
    if is_pascal(s) {
        Naming::Pascal
    } else if is_camel(s) {
        Naming::Camel
    } else if is_separated(s, '_') {
        Naming::Snake
    } else if is_separated(s, '-') {
        Naming::Kebab
    } else if is_lower_word(s) {
        Naming::Lower
    } else if is_upper_word(s) {
        Naming::Upper
    } else {
        Naming::Unknown
    }
}

fn lower_char(c: char) -> (r: bool)
    ensures
        r == is_lower(c),
{
    'a' <= c && c <= 'z'
}

fn upper_char(c: char) -> (r: bool)
    ensures
        r == is_upper(c),
{
    'A' <= c && c <= 'Z'
}

/// Scans the name once; yields its uppercase-letter count when every
/// character is a letter and every uppercase letter starts a `[A-Z][a-z]+`
/// segment, and `None` otherwise.
#[verifier::loop_isolation(false)]
fn scan_segments(s: &str) -> (r: Option<usize>)
    ensures
        match r {
            Some(u) => segments_ok(s@) && u as nat == upper_count(s@),
            None => !segments_ok(s@),
        },
{
    let n = s.unicode_len();
    let mut uppers: usize = 0;
    let mut prev_upper: bool = false;
    let mut i: usize = 0;
    while i < n
        invariant
            i <= n,
            uppers <= i,
            uppers as nat == upper_count(s@.take(i as int)),
            prev_upper == (i > 0 && is_upper(s@[i as int - 1])),
            forall|j: int| 0 <= j < i ==> is_lower(#[trigger] s@[j]) || is_upper(s@[j]),
            forall|j: int| 0 <= j < i - 1 ==> is_upper(#[trigger] s@[j]) ==> is_lower(s@[j + 1]),
        decreases n - i,
    {
        let c = s.get_char(i);
        if lower_char(c) {
            prev_upper = false;
        } else if upper_char(c) {
            if prev_upper {
                assert(!segments_ok(s@)) by {
                    assert(is_upper(s@[i as int - 1]) && !is_lower(s@[i as int]));
                }
                return None;
            }
            prev_upper = true;
            uppers = uppers + 1;
        } else {
            assert(!segments_ok(s@)) by {
                assert(!is_lower(s@[i as int]) && !is_upper(s@[i as int]));
            }
            return None;
        }
        proof {
            assert(s@.take(i as int + 1).drop_last() =~= s@.take(i as int));
        }
        i = i + 1;
    }
    if prev_upper {
        assert(!segments_ok(s@)) by {
            assert(is_upper(s@[n as int - 1]));
        }
        return None;
    }
    proof {
        assert(s@.take(n as int) =~= s@);
    }
    Some(uppers)
}

fn matches_pascal(s: &str) -> (r: bool)
    ensures
        r == is_pascal(s@),
{
    let n = s.unicode_len();
    if n == 0 {
        return false;
    }
    if !upper_char(s.get_char(0)) {
        return false;
    }
    match scan_segments(s) {
        Some(u) => u >= 2,
        None => false,
    }
}

fn matches_camel(s: &str) -> (r: bool)
    ensures
        r == is_camel(s@),
{
    let n = s.unicode_len();
    if n == 0 {
        return false;
    }
    if !lower_char(s.get_char(0)) {
        return false;
    }
    match scan_segments(s) {
        Some(u) => u >= 1,
        None => false,
    }
}

#[verifier::loop_isolation(false)]
fn matches_separated(s: &str, sep: char) -> (r: bool)
    requires
        !is_lower(sep),
    ensures
        r == is_separated(s@, sep),
{
    let n = s.unicode_len();
    if n == 0 {
        return false;
    }
    let mut found: bool = false;
    let mut prev_sep: bool = false;
    let mut i: usize = 0;
    while i < n
        invariant
            i <= n,
            i > 0 ==> is_lower(s@[0]),
            prev_sep == (i > 0 && s@[i as int - 1] == sep),
            found == exists|j: int| #![trigger s@[j]] 0 <= j < i && s@[j] == sep,
            forall|j: int| 0 <= j < i ==> is_lower(#[trigger] s@[j]) || s@[j] == sep,
            forall|j: int| #![trigger s@[j]] 1 <= j < i ==> !(s@[j - 1] == sep && s@[j] == sep),
        decreases n - i,
    {
        let c = s.get_char(i);
        if lower_char(c) {
            prev_sep = false;
        } else if c == sep {
            if i == 0 {
                return false;
            }
            if prev_sep {
                return false;
            }
            prev_sep = true;
            found = true;
        } else {
            assert(!is_separated(s@, sep)) by {
                assert(!is_lower(s@[i as int]) && s@[i as int] != sep);
            }
            return false;
        }
        i = i + 1;
    }
    if prev_sep {
        return false;
    }
    found
}

fn matches_lower_word(s: &str) -> (r: bool)
    ensures
        r == is_lower_word(s@),
{
    let n = s.unicode_len();
    if n == 0 {
        return false;
    }
    let mut i: usize = 0;
    while i < n
        invariant
            i <= n,
            n == s@.len(),
            forall|j: int| 0 <= j < i ==> is_lower(#[trigger] s@[j]),
        decreases n - i,
    {
        if !lower_char(s.get_char(i)) {
            return false;
        }
        i = i + 1;
    }
    true
}

fn matches_upper_word(s: &str) -> (r: bool)
    ensures
        r == is_upper_word(s@),
{
    let n = s.unicode_len();
    if n == 0 {
        return false;
    }
    let mut i: usize = 0;
    while i < n
        invariant
            i <= n,
            n == s@.len(),
            forall|j: int| 0 <= j < i ==> is_upper(#[trigger] s@[j]),
        decreases n - i,
    {
        if !upper_char(s.get_char(i)) {
            return false;
        }
        i = i + 1;
    }
    true
}

/// Classifies a base name, trying the six styles in priority order and
/// returning `Unknown` when none matches.  Total: never fails.
pub fn get_naming_style(naming: &str) -> (r: Naming)
    ensures
        r == classify(naming@),
{
    if matches_pascal(naming) {
        return Naming::Pascal;
    }
    if matches_camel(naming) {
        return Naming::Camel;
    }
    if matches_separated(naming, '_') {
        return Naming::Snake;
    }
    if matches_separated(naming, '-') {
        return Naming::Kebab;
    }
    if matches_lower_word(naming) {
        return Naming::Lower;
    }
    if matches_upper_word(naming) {
        return Naming::Upper;
    }
    Naming::Unknown
}

/// One word-segment of shape `[A-Z][a-z]+`: an uppercase letter followed
/// by one or more lowercase letters.
pub open spec fn is_cap_segment(s: Seq<char>) -> bool {
    s.len() >= 2 && is_upper(s[0]) && forall|i: int| 1 <= i < s.len() ==> is_lower(#[trigger] s[i])
}

/// A run of one or more `[A-Z][a-z]+` segments: `(?:[A-Z][a-z]+)+`.
pub open spec fn is_segment_run(s: Seq<char>) -> bool {
    s.len() > 0 && is_upper(s[0]) && segments_ok(s) && upper_count(s) >= 1
}

proof fn lemma_upper_count_concat(a: Seq<char>, b: Seq<char>)
    ensures
        upper_count(a + b) == upper_count(a) + upper_count(b),
    decreases b.len(),
{
    if b.len() == 0 {
        assert(a + b =~= a);
    } else {
        assert((a + b).drop_last() =~= a + b.drop_last());
        assert((a + b).last() == b.last());
        lemma_upper_count_concat(a, b.drop_last());
    }
}

/// A single `[A-Z][a-z]+` segment is a run of one.
pub proof fn lemma_cap_segment_is_run(s: Seq<char>)
    requires
        is_cap_segment(s),
    ensures
        is_segment_run(s),
        upper_count(s) == 1,
{
    lemma_upper_count_of_capitalized_word(s);
}

/// Prepending one more `[A-Z][a-z]+` segment keeps a run a run and adds
/// one to its uppercase count.
pub proof fn lemma_prepend_cap_segment(a: Seq<char>, s: Seq<char>)
    requires
        is_cap_segment(a),
        is_segment_run(s),
    ensures
        is_segment_run(a + s),
        upper_count(a + s) == upper_count(s) + 1,
{
    lemma_upper_count_of_capitalized_word(a);
    lemma_upper_count_concat(a, s);
    let c = a + s;
    let n = a.len() as int;
    assert forall|i: int|
        0 <= i < c.len() implies {
        ||| is_lower(#[trigger] c[i])
        ||| (is_upper(c[i]) && i + 1 < c.len() && is_lower(c[i + 1]))
    } by {
        if i < n {
            assert(c[i] == a[i]);
            if i == 0 {
                assert(c[1] == a[1] && is_lower(a[1]));
            }
        } else {
            assert(c[i] == s[i - n]);
            if is_upper(s[i - n]) {
                assert(is_lower(s[i - n + 1]));
            }
        }
    }
}

/// Two or more `[A-Z][a-z]+` segments concatenated are exactly a Pascal
/// name: a run with at least two uppercase letters.
pub proof fn lemma_two_cap_segments_pascal(a: Seq<char>, s: Seq<char>)
    requires
        is_cap_segment(a),
        is_segment_run(s),
    ensures
        is_pascal(a + s),
        classify(a + s) == Naming::Pascal,
{
    lemma_prepend_cap_segment(a, s);
}

/// A lowercase head followed by a segment run is exactly a Camel name.
pub proof fn lemma_lower_head_then_run_camel(l: Seq<char>, s: Seq<char>)
    requires
        is_lower_word(l),
        is_segment_run(s),
    ensures
        is_camel(l + s),
        classify(l + s) == Naming::Camel,
{
    let c = l + s;
    let n = l.len() as int;
    assert(upper_count(l) == 0) by {
        lemma_upper_count_of_lower_word(l);
    }
    lemma_upper_count_concat(l, s);
    assert forall|i: int|
        0 <= i < c.len() implies {
        ||| is_lower(#[trigger] c[i])
        ||| (is_upper(c[i]) && i + 1 < c.len() && is_lower(c[i + 1]))
    } by {
        if i < n {
            assert(c[i] == l[i]);
        } else {
            assert(c[i] == s[i - n]);
            if is_upper(s[i - n]) {
                assert(is_lower(s[i - n + 1]));
            }
        }
    }
    assert(is_camel(c));
    lemma_camel_names_classify_camel(c);
}

proof fn lemma_upper_count_of_lower_word(s: Seq<char>)
    requires
        forall|i: int| 0 <= i < s.len() ==> is_lower(#[trigger] s[i]),
    ensures
        upper_count(s) == 0,
    decreases s.len(),
{
    if s.len() > 0 {
        lemma_upper_count_of_lower_word(s.drop_last());
    }
}

/// Every name made of two or more `[A-Z][a-z]+` segments classifies as
/// Pascal: the Pascal pattern is tried first, so nothing shadows it.
pub proof fn lemma_pascal_names_classify_pascal(s: Seq<char>)
    requires
        is_pascal(s),
    ensures
        classify(s) == Naming::Pascal,
{
}

/// Every name matching `^[a-z]+(?:[A-Z][a-z]+)+$` classifies as Camel:
/// such a name starts with a lowercase letter, so it can never match the
/// higher-priority Pascal pattern.
pub proof fn lemma_camel_names_classify_camel(s: Seq<char>)
    requires
        is_camel(s),
    ensures
        classify(s) == Naming::Camel,
{
    assert(!is_upper(s[0]));
}

proof fn lemma_upper_count_of_capitalized_word(s: Seq<char>)
    requires
        s.len() >= 1,
        forall|i: int| 1 <= i < s.len() ==> is_lower(#[trigger] s[i]),
    ensures
        upper_count(s) == if is_upper(s[0]) {
            1nat
        } else {
            0nat
        },
    decreases s.len(),
{
    reveal_with_fuel(upper_count, 2);
    if s.len() == 1 {
        assert(s.drop_last() =~= Seq::<char>::empty());
        assert(upper_count(s) == upper_count(Seq::<char>::empty()) + if is_upper(s.last()) {
            1nat
        } else {
            0nat
        });
    } else {
        assert(!is_upper(s.last()));
        assert(forall|i: int|
            1 <= i < s.drop_last().len() ==> is_lower(#[trigger] s.drop_last()[i]));
        lemma_upper_count_of_capitalized_word(s.drop_last());
        assert(s.drop_last()[0] == s[0]);
    }
}

/// A single capitalized word (one uppercase letter, then only lowercase
/// letters) matches none of the six patterns: it classifies as Unknown,
/// not as Pascal.
pub proof fn lemma_single_capitalized_word_unknown(s: Seq<char>)
    requires
        s.len() >= 2,
        is_upper(s[0]),
        forall|i: int| 1 <= i < s.len() ==> is_lower(#[trigger] s[i]),
    ensures
        classify(s) == Naming::Unknown,
{
    lemma_upper_count_of_capitalized_word(s);
    assert(!is_pascal(s));
    assert(!is_lower(s[0]));
    assert(!is_upper(s[1]));
}

impl Naming {
    /// The style's name as it reads in a report.
    pub open spec fn spec_label(self) -> Seq<char> {
        match self {
            Naming::Pascal => "Pascal"@,
            Naming::Camel => "Camel"@,
            Naming::Snake => "Snake"@,
            Naming::Kebab => "Kebab"@,
            Naming::Lower => "Lower"@,
            Naming::Upper => "Upper"@,
            Naming::Unknown => "Unknown"@,
        }
    }

    /// The style's name, for printing.
    pub fn label(&self) -> (r: &'static str)
        ensures
            r@ == self.spec_label(),
    {
        match self {
            Naming::Pascal => "Pascal",
            Naming::Camel => "Camel",
            Naming::Snake => "Snake",
            Naming::Kebab => "Kebab",
            Naming::Lower => "Lower",
            Naming::Upper => "Upper",
            Naming::Unknown => "Unknown",
        }
    }
}

} // verus!
