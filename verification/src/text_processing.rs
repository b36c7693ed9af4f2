//! Stop-word filtering: an Aho-Corasick automaton reports the spans of
//! configured stop words inside a text, and every byte inside a reported
//! span is overwritten with a placeholder, leaving all other bytes and the
//! text's length untouched.
use vstd::prelude::*;
use vstd::utf8::valid_utf8;

verus! {

/// The placeholder byte written over stop words: `_`.
pub const PLACEHOLDER: u8 = 95;

/// The UTF-8 encoding of a character sequence, as a text's `as_bytes`
/// returns it.
pub uninterp spec fn utf8_of(s: Seq<char>) -> Seq<u8>;

/// Relies on str::as_bytes: the returned bytes are the UTF-8 encoding of
/// the text's characters, and a text's bytes are always valid UTF-8.
#[verifier::external_body]
fn string_to_bytes(s: &String) -> (r: Vec<u8>)
    ensures
        r@ == utf8_of(s@),
        valid_utf8(r@),
{
    s.as_bytes().to_vec()
}

/// Whether an Aho-Corasick automaton can be built for the given patterns;
/// the build outcome depends on the patterns alone.
pub uninterp spec fn ac_builds(patterns: Seq<Seq<char>>) -> bool;

/// The spans an automaton reports over a haystack; they depend on the
/// automaton and the haystack alone.
pub uninterp spec fn found_spans(ac: aho_corasick::AhoCorasick, hay: Seq<u8>) -> Seq<
    (usize, usize),
>;

/// Relies on aho_corasick::AhoCorasick; Verus carries the automaton as an
/// opaque value.
#[verifier::external_type_specification]
#[verifier::external_body]
pub struct ExAhoCorasick(aho_corasick::AhoCorasick);

/// Relies on AhoCorasick::new: builds an automaton for the given
/// patterns, or reports that it cannot be built; the outcome depends on
/// the patterns alone, and an automaton over no patterns never reports a
/// span.
#[verifier::external_body]
fn ac_build(patterns: &Vec<String>) -> (r: Option<aho_corasick::AhoCorasick>)
    ensures
        r is Some <==> ac_builds(patterns@.map_values(|s: String| s@)),
        r matches Some(ac) ==> (patterns@.len() == 0 ==> forall|hay: Seq<u8>|
            found_spans(ac, hay) == Seq::<(usize, usize)>::empty()),
{
    match aho_corasick::AhoCorasick::new(patterns) {
        Ok(ac) => Some(ac),
        Err(_) => None,
    }
}

/// Relies on AhoCorasick::find_iter: the reported matches are a function
/// of the automaton and the haystack alone, and every one is a span of
/// byte positions inside the haystack, with start at most end.
#[verifier::external_body]
fn ac_find_spans(ac: &aho_corasick::AhoCorasick, hay: &Vec<u8>) -> (r: Vec<(usize, usize)>)
    ensures
        r@ == found_spans(*ac, hay@),
        forall|i: int| 0 <= i < r@.len() ==> (#[trigger] r@[i]).0 <= r@[i].1 <= hay@.len(),
{
    let mut v = Vec::new();
    for m in ac.find_iter(hay.as_slice()) {
        v.push((m.start(), m.end()));
    }
    v
}

/// Relies on String::from_utf8: it succeeds exactly on valid UTF-8, and
/// on success the returned string holds exactly the given bytes.
#[verifier::external_body]
fn string_from_utf8(b: Vec<u8>) -> (r: Option<String>)
    ensures
        r is Some <==> valid_utf8(b@),
        r matches Some(s) ==> utf8_of(s@) == b@,
{
    match String::from_utf8(b) {
        Ok(s) => Some(s),
        Err(_) => None,
    }
}

/// Whether byte position `i` falls inside one of the spans.
pub open spec fn in_spans(spans: Seq<(usize, usize)>, i: int) -> bool {
    exists|k: int| 0 <= k < spans.len() && (#[trigger] spans[k]).0 <= i < spans[k].1
}

/// The haystack with every byte inside one of the spans replaced by the
/// placeholder.
pub open spec fn blanked_bytes(hay: Seq<u8>, spans: Seq<(usize, usize)>) -> Seq<u8> {
    Seq::new(
        hay.len(),
        |i: int|
            if in_spans(spans, i) {
                PLACEHOLDER
            } else {
                hay[i]
            },
    )
}

/// Returns `input` with every byte inside one of the spans replaced by
/// the placeholder and every other byte untouched.
fn blank_spans(input: &Vec<u8>, spans: &Vec<(usize, usize)>) -> (r: Vec<u8>)
    requires
        forall|k: int| 0 <= k < spans@.len() ==> (#[trigger] spans@[k]).0 <= spans@[k].1
            <= input@.len(),
    ensures
        r@.len() == input@.len(),
        forall|i: int| 0 <= i < input@.len() ==> (#[trigger] r@[i]) == if in_spans(spans@, i) {
            PLACEHOLDER
        } else {
            input@[i]
        },
{
    let mut out: Vec<u8> = Vec::new();
    let mut i: usize = 0;
    while i < input.len()
        invariant
            0 <= i <= input@.len(),
            out@ == input@.subrange(0, i as int),
        decreases input@.len() - i,
    {
        out.push(input[i]);
        proof {
            assert(input@.subrange(0, i + 1) =~= input@.subrange(0, i as int).push(
                input@[i as int],
            ));
        }
        i = i + 1;
    }
    proof {
        assert(input@.subrange(0, input@.len() as int) =~= input@);
    }
    let mut t: usize = 0;
    while t < spans.len()
        invariant
            0 <= t <= spans@.len(),
            forall|k: int| 0 <= k < spans@.len() ==> (#[trigger] spans@[k]).0 <= spans@[k].1
                <= input@.len(),
            out@.len() == input@.len(),
            forall|i: int| 0 <= i < input@.len() ==> (#[trigger] out@[i]) == if in_spans(
                spans@.subrange(0, t as int),
                i,
            ) {
                PLACEHOLDER
            } else {
                input@[i]
            },
        decreases spans@.len() - t,
    {
        let (s, e) = spans[t];
        let mut w: usize = s;
        while w < e
            invariant
                0 <= t < spans@.len(),
                (s, e) == spans@[t as int],
                s <= w <= e <= input@.len(),
                out@.len() == input@.len(),
                forall|i: int| 0 <= i < input@.len() ==> (#[trigger] out@[i]) == if in_spans(
                    spans@.subrange(0, t as int),
                    i,
                ) || (s <= i < w) {
                    PLACEHOLDER
                } else {
                    input@[i]
                },
            decreases e - w,
        {
            out.set(w, PLACEHOLDER);
            w = w + 1;
        }
        proof {
            assert forall|i: int| 0 <= i < input@.len() implies (in_spans(
                spans@.subrange(0, t + 1),
                i,
            ) <==> (in_spans(spans@.subrange(0, t as int), i) || (s <= i < e))) by {
                if in_spans(spans@.subrange(0, t + 1), i) {
                    let k = choose|k: int|
                        0 <= k < t + 1 && (#[trigger] spans@.subrange(0, t + 1)[k]).0 <= i
                            < spans@.subrange(0, t + 1)[k].1;
                    if k < t {
                        assert(spans@.subrange(0, t as int)[k] == spans@[k]);
                    }
                }
                if in_spans(spans@.subrange(0, t as int), i) {
                    let k = choose|k: int|
                        0 <= k < t && (#[trigger] spans@.subrange(0, t as int)[k]).0 <= i
                            < spans@.subrange(0, t as int)[k].1;
                    assert(spans@.subrange(0, t + 1)[k] == spans@[k]);
                }
                if s <= i < e {
                    assert(spans@.subrange(0, t + 1)[t as int] == spans@[t as int]);
                }
            }
        }
        t = t + 1;
    }
    proof {
        assert(spans@.subrange(0, spans@.len() as int) =~= spans@);
    }
    out
}

/// Stop-word filter: holds the configured stop words and, once `set_ac`
/// has run, the automaton that finds them.
pub struct Processing {
    stop_words: Vec<String>,
    ac_auto: Option<aho_corasick::AhoCorasick>,
}

impl Processing {
    /// The configured stop words.
    pub closed spec fn stop_words_view(self) -> Seq<Seq<char>> {
        self.stop_words@.map_values(|s: String| s@)
    }

    /// Whether an automaton has been built.
    pub closed spec fn has_automaton(self) -> bool {
        self.ac_auto is Some
    }

    /// The stop-word spans the installed automaton reports over a
    /// haystack; none without an automaton.
    pub closed spec fn spans_for(self, hay: Seq<u8>) -> Seq<(usize, usize)> {
        match self.ac_auto {
            Some(ac) => found_spans(ac, hay),
            None => Seq::empty(),
        }
    }

    /// A filter with no stop words and no automaton: a passthrough.
    pub fn new() -> (r: Self)
        ensures
            r.stop_words_view().len() == 0,
            !r.has_automaton(),
    {
        Processing { stop_words: Vec::new(), ac_auto: None }
    }

    /// Adds one stop word; `set_ac` must run again for it to take effect.
    pub fn add_stop_word(&mut self, s: String)
        ensures
            final(self).stop_words_view() == old(self).stop_words_view().push(s@),
            final(self).has_automaton() == old(self).has_automaton(),
    {
        self.stop_words.push(s);
        proof {
            assert(final(self).stop_words_view() =~= old(self).stop_words_view().push(s@));
        }
    }

    /// Builds the automaton from the configured stop words; on the (never
    /// observed in practice) build failure the filter stays a
    /// passthrough.
    pub fn set_ac(&mut self)
        ensures
            final(self).stop_words_view() == old(self).stop_words_view(),
            final(self).has_automaton() == ac_builds(old(self).stop_words_view()),
            final(self).has_automaton() && old(self).stop_words_view().len() == 0
                ==> forall|hay: Seq<u8>| final(self).spans_for(hay) == Seq::<
                (usize, usize),
            >::empty(),
    {
        self.ac_auto = ac_build(&self.stop_words);
    }

    /// Filters one text: every byte inside a span the automaton reports
    /// is overwritten with the placeholder and every other byte is kept
    /// unchanged in place.  Without an automaton, with no reported span,
    /// or in the never-expected case that the blanked bytes no longer
    /// form valid text, the input is returned unchanged.
    pub fn parse(&self, input: String) -> (r: String)
        ensures
            utf8_of(r@).len() == utf8_of(input@).len(),
            !self.has_automaton() ==> r == input,
            self.has_automaton() ==> ({
                let hay = utf8_of(input@);
                let blanked = blanked_bytes(hay, self.spans_for(hay));
                if valid_utf8(blanked) {
                    utf8_of(r@) == blanked
                } else {
                    r == input
                }
            }),
            self.has_automaton() && self.spans_for(utf8_of(input@)).len() == 0 ==> r == input,
    {
        match &self.ac_auto {
            Some(ac) => {
                let bytes = string_to_bytes(&input);
                let spans = ac_find_spans(ac, &bytes);
                let ghost hay = utf8_of(input@);
                proof {
                    assert(spans@ == self.spans_for(hay));
                }
                if spans.len() == 0 {
                    proof {
                        assert(blanked_bytes(hay, spans@) =~= hay);
                    }
                    return input;
                }
                let blanked = blank_spans(&bytes, &spans);
                proof {
                    assert(blanked@ =~= blanked_bytes(hay, spans@));
                }
                match string_from_utf8(blanked) {
                    Some(filtered) => filtered,
                    None => input,
                }
            },
            None => input,
        }
    }
}

} // verus!
