//! Word search over events.
//!
//! 1. Take the text of the details and of the summary of every event.
//! 2. Blank its HTML tags (a `<` up to the next `>`), punctuation and white
//!    space, and lower-case its ASCII letters.
//! 3. The words are the non-empty pieces between the spaces.
//! 4. Map every word to the set of positions of the events that contain it,
//!    and drop a few common words.
//! 5. A query is split on single spaces; each of its pieces finds the map
//!    words within a small edit distance, and the events of those words are
//!    the result.

use vstd::prelude::*;
use vstd::utf8::*;
use std::collections::HashSet;
use crate::event::Event;
use crate::fixed_string::holds_bytes;
use crate::fixed_string::CustomStringTrait;
use crate::text::{chars_equal, chars_of};
use crate::levenshtein_distance::{
    edit_distance, lemma_edit_distance_bounds, lemma_edit_distance_zero_iff_equal, levenshtein_dist_chars,
};

verus! {

broadcast use vstd::std_specs::hash::group_hash_axioms;

// ---------------------------------------------------------------------------
// Text normalisation
// ---------------------------------------------------------------------------

/// The character sequences held by a sequence of vectors.
pub open spec fn views(v: Seq<Vec<char>>) -> Seq<Seq<char>> {
    v.map_values(|x: Vec<char>| x@)
}

/// ASCII upper-case letters become lower-case; every other character stays.
pub open spec fn ascii_lower(c: char) -> char {
    if 'A' <= c && c <= 'Z' {
        (((c as u8) + 32) as u8) as char
    } else {
        c
    }
}

/// ASCII punctuation: what `char::is_ascii_punctuation` accepts.
pub open spec fn is_punctuation(c: char) -> bool {
    ||| ('!' <= c && c <= '/')
    ||| (':' <= c && c <= '@')
    ||| ('[' <= c && c <= '`')
    ||| ('{' <= c && c <= '~')
}

/// ASCII white space: what `char::is_ascii_whitespace` accepts.
pub open spec fn is_white_space(c: char) -> bool {
    c == ' ' || c == '\t' || c == '\n' || c == '\x0C' || c == '\r'
}

/// Characters that end a word.
pub open spec fn is_separator(c: char) -> bool {
    is_punctuation(c) || is_white_space(c)
}

/// What a character of the text becomes: a space inside an HTML tag and
/// for punctuation and white space, otherwise its lower-case form.
pub open spec fn cleaned_char(c: char, in_tag: bool) -> char {
    if in_tag || is_separator(c) {
        ' '
    } else {
        ascii_lower(c)
    }
}

/// Whether the character after `c` is inside an HTML tag, where `rest` is
/// the text after `c`: a `<` opens a tag when a `>` follows it somewhere,
/// and the tag closes with that `>`.  A `<` with no `>` after it is ordinary
/// punctuation.
pub open spec fn in_tag_after(c: char, in_tag: bool, rest: Seq<char>) -> bool {
    if in_tag {
        c != '>'
    } else {
        c == '<' && rest.contains('>')
    }
}

/// The text `s`, read from a point inside (`in_tag`) or outside a tag, with
/// every character replaced as [`cleaned_char`] says.
pub open spec fn cleaned_from(s: Seq<char>, in_tag: bool) -> Seq<char>
    decreases s.len(),
{
    if s.len() == 0 {
        Seq::empty()
    } else {
        seq![cleaned_char(s[0], in_tag)] + cleaned_from(
            s.drop_first(),
            in_tag_after(s[0], in_tag, s.drop_first()),
        )
    }
}

/// The text of a document with its HTML tags, punctuation and white space
/// turned into spaces and its ASCII letters lower-cased.
pub open spec fn cleaned(s: Seq<char>) -> Seq<char> {
    cleaned_from(s, false)
}

/// The pieces of `s` between single spaces, empty pieces included; the
/// empty text has one empty piece.
pub open spec fn split_spaces(s: Seq<char>) -> Seq<Seq<char>>
    decreases s.len(),
{
    if s.len() == 0 {
        seq![Seq::<char>::empty()]
    } else {
        let r = split_spaces(s.drop_last());
        if s.last() == ' ' {
            r.push(Seq::<char>::empty())
        } else {
            r.update(r.len() - 1, r.last().push(s.last()))
        }
    }
}

pub proof fn lemma_split_spaces_nonempty(s: Seq<char>)
    ensures
        split_spaces(s).len() >= 1,
    decreases s.len(),
{
    if s.len() > 0 {
        lemma_split_spaces_nonempty(s.drop_last());
    }
}

/// What the first `j + 1` elements contain: that of the first `j`, and `s[j]`.
proof fn lemma_take_next_contains<A>(s: Seq<A>, j: int)
    requires
        0 <= j < s.len(),
    ensures
        forall|t: A| #[trigger] s.take(j + 1).contains(t) <==> s.take(j).contains(t) || t == s[j],
{
    let a = s.take(j + 1);
    let b = s.take(j);
    assert forall|t: A| a.contains(t) <==> b.contains(t) || t == s[j] by {
        if a.contains(t) {
            let q = choose|q: int| 0 <= q < a.len() && a[q] == t;
            if q < j {
                assert(b[q] == t);
            }
        }
        if b.contains(t) {
            let q = choose|q: int| 0 <= q < b.len() && b[q] == t;
            assert(a[q] == t);
        }
        if t == s[j] {
            assert(a[j] == t);
        }
    }
}

fn is_separator_char(c: char) -> (b: bool)
    ensures
        b == is_separator(c),
{
    ('!' <= c && c <= '/') || (':' <= c && c <= '@') || ('[' <= c && c <= '`') || ('{' <= c
        && c <= '~') || c == ' ' || c == '\t' || c == '\n' || c == '\x0C' || c == '\r'
}

fn lower_char(c: char) -> (l: char)
    ensures
        l == ascii_lower(c),
{
    if 'A' <= c && c <= 'Z' {
        ((c as u8) + 32) as char
    } else {
        c
    }
}

/// The position of the last `>` of `s`, if any.
fn last_close(s: &Vec<char>) -> (g: Option<usize>)
    ensures
        match g {
            Some(x) => x < s@.len() && s@[x as int] == '>' && forall|j: int|
                x < j < s@.len() ==> s@[j] != '>',
            None => forall|j: int| 0 <= j < s@.len() ==> s@[j] != '>',
        },
{
    let n = s.len();
    let mut g: Option<usize> = None;
    for k in 0..n
        invariant
            n == s@.len(),
            match g {
                Some(x) => x < k && s@[x as int] == '>' && forall|j: int| x < j < k ==> s@[j] != '>',
                None => forall|j: int| 0 <= j < k ==> s@[j] != '>',
            },
    {
        if s[k] == '>' {
            g = Some(k);
        }
    }
    g
}

/// Blanks HTML tags, punctuation and white space, and lower-cases letters.
fn clean(s: &Vec<char>) -> (r: Vec<char>)
    ensures
        r@ == cleaned(s@),
{
    let n = s.len();
    let last = last_close(s);
    let mut r: Vec<char> = Vec::new();
    let mut in_tag = false;
    let mut i: usize = 0;
    assert(s@.skip(0) =~= s@);
    while i < n
        invariant
            n == s@.len(),
            i <= n,
            match last {
                Some(x) => x < s@.len() && s@[x as int] == '>' && forall|j: int|
                    x < j < s@.len() ==> s@[j] != '>',
                None => forall|j: int| 0 <= j < s@.len() ==> s@[j] != '>',
            },
            r@ + cleaned_from(s@.skip(i as int), in_tag) == cleaned(s@),
        decreases n - i,
    {
        let c = s[i];
        let ghost rest = s@.skip(i as int);
        let ghost was = in_tag;
        assert(rest.drop_first() =~= s@.skip(i + 1));
        assert(rest[0] == c);
        let closes = match last {
            Some(x) => x > i,
            None => false,
        };
        assert(closes == s@.skip(i + 1).contains('>')) by {
            let after = s@.skip(i + 1);
            if closes {
                let x = last.unwrap();
                assert(after[x - i - 1] == '>');
            }
            if after.contains('>') {
                let q = choose|q: int| 0 <= q < after.len() && after[q] == '>';
                assert(s@[i + 1 + q] == '>');
            }
        }
        let out = if in_tag || is_separator_char(c) {
            ' '
        } else {
            lower_char(c)
        };
        in_tag = if in_tag {
            c != '>'
        } else {
            c == '<' && closes
        };
        r.push(out);
        i = i + 1;
        assert(cleaned_from(rest, was) == seq![out] + cleaned_from(s@.skip(i as int), in_tag));
        assert(r@ + cleaned_from(s@.skip(i as int), in_tag) =~= cleaned(s@));
    }
    assert(cleaned_from(s@.skip(n as int), in_tag) =~= Seq::<char>::empty());
    assert(r@ =~= r@ + Seq::<char>::empty());
    r
}

/// Splits on single spaces.
fn split_on_spaces(s: &Vec<char>) -> (tokens: Vec<Vec<char>>)
    ensures
        views(tokens@) == split_spaces(s@),
{
    let mut tokens: Vec<Vec<char>> = Vec::new();
    let mut cur: Vec<char> = Vec::new();
    let n = s.len();
    for i in 0..n
        invariant
            n == s@.len(),
            views(tokens@).push(cur@) == split_spaces(s@.take(i as int)),
    {
        let c = s[i];
        proof {
            assert(s@.take(i + 1).drop_last() =~= s@.take(i as int));
            lemma_split_spaces_nonempty(s@.take(i as int));
        }
        let ghost before = views(tokens@);
        if c == ' ' {
            tokens.push(cur);
            cur = Vec::new();
            assert(views(tokens@) =~= before.push(split_spaces(s@.take(i as int)).last()));
        } else {
            cur.push(c);
        }
        assert(views(tokens@).push(cur@) =~= split_spaces(s@.take(i + 1)));
    }
    tokens.push(cur);
    assert(s@.take(n as int) =~= s@);
    tokens
}

/// The tokens of a document text.
fn tokenize(text: &str) -> (tokens: Vec<Vec<char>>)
    ensures
        views(tokens@) == split_spaces(cleaned(text@)),
{
    let chars = chars_of(text);
    let n = clean(&chars);
    split_on_spaces(&n)
}

// ---------------------------------------------------------------------------
// Event text
// ---------------------------------------------------------------------------

/// The text held in a buffer with the given length.
pub open spec fn buffer_text(length: u32, buffer: Seq<u8>) -> Seq<char> {
    decode_utf8(buffer.take(length as int))
}

/// The summary and details of `e` are readable text: their lengths are
/// within their buffers and the bytes are valid UTF-8.
pub open spec fn has_readable_text(e: Event) -> bool {
    &&& e.summary.length <= 104
    &&& valid_utf8(e.summary.buffer@.take(e.summary.length as int))
    &&& e.details.length <= 400
    &&& valid_utf8(e.details.buffer@.take(e.details.length as int))
}

/// Whether the summary and details of `e` are readable text.
pub fn has_readable_text_exec(e: &Event) -> (b: bool)
    ensures
        b == has_readable_text(*e),
{
    e.summary.is_readable() && e.details.is_readable()
}

/// Text stored whole in a buffer reads back as that text: when its UTF-8
/// bytes fit the capacity, the stored bytes are valid UTF-8 and decode to it.
pub proof fn lemma_stored_text_reads_back(length: u32, buffer: Seq<u8>, text: Seq<char>, cap: nat)
    requires
        holds_bytes(length, buffer, encode_utf8(text), cap),
        encode_utf8(text).len() <= cap,
    ensures
        valid_utf8(buffer.take(length as int)),
        buffer_text(length, buffer) == text,
{
    let bytes = encode_utf8(text);
    assert(buffer.take(length as int) =~= bytes);
    encode_utf8_valid_utf8(text);
    encode_utf8_decode_utf8(text);
}

/// The tokens of an event: those of its details, then those of its summary.
pub open spec fn event_tokens(e: Event) -> Seq<Seq<char>> {
    split_spaces(cleaned(buffer_text(e.details.length, e.details.buffer@))) + split_spaces(
        cleaned(buffer_text(e.summary.length, e.summary.buffer@)),
    )
}

/// Words too common to be searched for.
pub open spec fn is_stop_word(t: Seq<char>) -> bool {
    ||| t == "a"@
    ||| t == "be"@
    ||| t == "are"@
    ||| t == "the"@
    ||| t == "for"@
    ||| t == "in"@
    ||| t == "an"@
    ||| t == "that"@
    ||| t == "with"@
}

fn stop_words() -> (v: Vec<Vec<char>>)
    ensures
        forall|t: Seq<char>|
            is_stop_word(t) <==> exists|k: int| 0 <= k < v@.len() && #[trigger] v@[k]@ == t,
{
    let v = vec![
        chars_of("a"),
        chars_of("be"),
        chars_of("are"),
        chars_of("the"),
        chars_of("for"),
        chars_of("in"),
        chars_of("an"),
        chars_of("that"),
        chars_of("with"),
    ];
    assert forall|t: Seq<char>| is_stop_word(t) implies exists|k: int|
        0 <= k < v@.len() && #[trigger] v@[k]@ == t by {
        if t == "a"@ {
            assert(v@[0]@ == t);
        } else if t == "be"@ {
            assert(v@[1]@ == t);
        } else if t == "are"@ {
            assert(v@[2]@ == t);
        } else if t == "the"@ {
            assert(v@[3]@ == t);
        } else if t == "for"@ {
            assert(v@[4]@ == t);
        } else if t == "in"@ {
            assert(v@[5]@ == t);
        } else if t == "an"@ {
            assert(v@[6]@ == t);
        } else if t == "that"@ {
            assert(v@[7]@ == t);
        } else {
            assert(v@[8]@ == t);
        }
    }
    v
}

fn is_stop_token(t: &Vec<char>, stops: &Vec<Vec<char>>) -> (b: bool)
    requires
        forall|u: Seq<char>|
            is_stop_word(u) <==> exists|k: int| 0 <= k < stops@.len() && #[trigger] stops@[k]@ == u,
    ensures
        b == is_stop_word(t@),
{
    let m = stops.len();
    for k in 0..m
        invariant
            m == stops@.len(),
            forall|q: int| 0 <= q < k ==> stops@[q]@ != t@,
            forall|u: Seq<char>|
                is_stop_word(u) <==> exists|k: int| 0 <= k < stops@.len() && #[trigger] stops@[k]@ == u,
    {
        if chars_equal(t, &stops[k]) {
            return true;
        }
    }
    proof {
        if is_stop_word(t@) {
            let k = choose|k: int| 0 <= k < stops@.len() && #[trigger] stops@[k]@ == t@;
            assert(stops@[k]@ != t@);
        }
    }
    false
}

// ---------------------------------------------------------------------------
// The token map
// ---------------------------------------------------------------------------

/// A token and the positions of the events that contain it.
#[derive(Debug)]
pub struct TokenEntry {
    pub token: Vec<char>,
    pub events: Vec<usize>,
}

/// Tokens with the positions of the events that contain them.
#[derive(Debug)]
pub struct DocumentTokenMap {
    pub entries: Vec<TokenEntry>,
}

/// Some entry has the token `t`.
pub open spec fn has_token(es: Seq<TokenEntry>, t: Seq<char>) -> bool {
    exists|k: int| 0 <= k < es.len() && (#[trigger] es[k]).token@ == t
}

/// Some entry with the token `t` lists event `i`.
pub open spec fn lists_event(es: Seq<TokenEntry>, t: Seq<char>, i: usize) -> bool {
    exists|k: int| 0 <= k < es.len() && (#[trigger] es[k]).token@ == t && es[k].events@.contains(i)
}

/// No token has two entries.
pub open spec fn distinct_tokens(es: Seq<TokenEntry>) -> bool {
    forall|a: int, b: int|
        0 <= a < b < es.len() ==> (#[trigger] es[a]).token@ != (#[trigger] es[b]).token@
}

impl View for DocumentTokenMap {
    type V = Map<Seq<char>, Set<usize>>;

    open spec fn view(&self) -> Map<Seq<char>, Set<usize>> {
        Map::new(
            |t: Seq<char>| has_token(self.entries@, t),
            |t: Seq<char>| Set::new(|i: usize| lists_event(self.entries@, t, i)),
        )
    }
}

impl DocumentTokenMap {
    /// Every token has one entry.
    pub open spec fn wf(&self) -> bool {
        distinct_tokens(self.entries@)
    }
}

/// The map expected from `events`: every word (non-empty token) of some
/// event that is not a common word, with the positions of the events that
/// contain it.
pub open spec fn token_map_of(events: Seq<Event>) -> Map<Seq<char>, Set<usize>> {
    Map::new(
        |t: Seq<char>|
            t.len() > 0 && !is_stop_word(t) && exists|i: int|
                0 <= i < events.len() && #[trigger] event_tokens(events[i]).contains(t),
        |t: Seq<char>|
            Set::new(
                |i: usize| i < events.len() && event_tokens(events[i as int]).contains(t),
            ),
    )
}

/// The index leaves out exactly the common words `a`, `be`, `are`, `the`,
/// `for`, `in`, `an`, `that` and `with`: every other word of an event is a
/// key that lists the event, and none of these nine is a key.
pub proof fn lemma_index_leaves_out_only_common_words(events: Seq<Event>)
    ensures
        forall|i: usize, t: Seq<char>|
            i < events.len() && #[trigger] event_tokens(events[i as int]).contains(t) && t.len() > 0
                && t != "a"@ && t != "be"@ && t != "are"@ && t != "the"@ && t != "for"@ && t != "in"@
                && t != "an"@ && t != "that"@ && t != "with"@ ==> token_map_of(events).dom().contains(t)
                && token_map_of(events)[t].contains(i),
        forall|t: Seq<char>|
            #[trigger] token_map_of(events).dom().contains(t) ==> t != "a"@ && t != "be"@ && t
                != "are"@ && t != "the"@ && t != "for"@ && t != "in"@ && t != "an"@ && t != "that"@
                && t != "with"@,
{
    assert forall|i: usize, t: Seq<char>|
        i < events.len() && #[trigger] event_tokens(events[i as int]).contains(t) && t.len() > 0
            && t != "a"@ && t != "be"@ && t != "are"@ && t != "the"@ && t != "for"@ && t != "in"@
            && t != "an"@ && t != "that"@ && t != "with"@ implies token_map_of(events).dom().contains(t)
            && token_map_of(events)[t].contains(i) by {
        assert(!is_stop_word(t));
    }
}

/// Adds event `idx` to the entry of `tok`, creating the entry if needed.
fn add_token(entries: &mut Vec<TokenEntry>, tok: &Vec<char>, idx: usize)
    ensures
        forall|t: Seq<char>|
            #![trigger has_token(final(entries)@, t)]
            has_token(final(entries)@, t) <==> has_token(old(entries)@, t) || t == tok@,
        forall|t: Seq<char>, i: usize|
            #![trigger lists_event(final(entries)@, t, i)]
            lists_event(final(entries)@, t, i) <==> lists_event(old(entries)@, t, i) || (t
                == tok@ && i == idx),
        distinct_tokens(old(entries)@) ==> distinct_tokens(final(entries)@),
{
    let n = entries.len();
    let mut k: usize = 0;
    while k < n
        invariant
            n == entries@.len(),
            entries@ == old(entries)@,
            k <= n,
            forall|q: int| 0 <= q < k ==> (#[trigger] entries@[q]).token@ != tok@,
        decreases n - k,
    {
        if chars_equal(&entries[k].token, tok) {
            let ghost before = entries@;
            let mut e = entries.remove(k);
            let m = e.events.len();
            if m == 0 || e.events[m - 1] != idx {
                e.events.push(idx);
                assert(e.events@[m as int] == idx);
            } else {
                assert(e.events@[m - 1] == idx);
            }
            assert(e.events@.contains(idx));
            let ghost e_view = e.events@;
            entries.insert(k, e);
            proof {
                let after = entries@;
                assert(after =~= before.update(k as int, after[k as int]));
                assert forall|t: Seq<char>| has_token(after, t) <==> has_token(before, t) || t
                    == tok@ by {
                    if has_token(before, t) {
                        let q = choose|q: int| 0 <= q < before.len() && (#[trigger] before[q]).token@ == t;
                        assert(after[q].token@ == t);
                    }
                    if t == tok@ {
                        assert(after[k as int].token@ == t);
                    }
                }
                assert forall|t: Seq<char>, i: usize| lists_event(after, t, i) <==> lists_event(
                    before,
                    t,
                    i,
                ) || (t == tok@ && i == idx) by {
                    if lists_event(before, t, i) {
                        let q = choose|q: int|
                            0 <= q < before.len() && (#[trigger] before[q]).token@ == t
                                && before[q].events@.contains(i);
                        if q == k {
                            let j = choose|j: int| 0 <= j < before[q].events@.len() && before[q].events@[j] == i;
                            assert(after[q].events@[j] == i);
                        }
                        assert(after[q].events@.contains(i));
                    }
                    if t == tok@ && i == idx {
                        assert(after[k as int].events@.contains(idx));
                    }
                    if lists_event(after, t, i) {
                        let q = choose|q: int|
                            0 <= q < after.len() && (#[trigger] after[q]).token@ == t
                                && after[q].events@.contains(i);
                        if q == k && !(t == tok@ && i == idx) {
                            let j = choose|j: int| 0 <= j < after[q].events@.len() && after[q].events@[j] == i;
                            if j < before[q].events@.len() {
                                assert(before[q].events@[j] == i);
                            }
                            assert(before[q].events@.contains(i));
                        }
                    }
                }
            }
            return;
        }
        k = k + 1;
    }
    let ghost before = entries@;
    let mut events: Vec<usize> = Vec::new();
    events.push(idx);
    let token = tok.clone();
    entries.push(TokenEntry { token, events });
    proof {
        let after = entries@;
        assert(after[n as int].events@.contains(idx)) by {
            assert(after[n as int].events@[0] == idx);
        }
        assert forall|t: Seq<char>| has_token(after, t) <==> has_token(before, t) || t == tok@ by {
            if has_token(before, t) {
                let q = choose|q: int| 0 <= q < before.len() && (#[trigger] before[q]).token@ == t;
                assert(after[q].token@ == t);
            }
            if t == tok@ {
                assert(after[n as int].token@ == t);
            }
        }
        assert forall|t: Seq<char>, i: usize| lists_event(after, t, i) <==> lists_event(before, t, i)
            || (t == tok@ && i == idx) by {
            if lists_event(before, t, i) {
                let q = choose|q: int|
                    0 <= q < before.len() && (#[trigger] before[q]).token@ == t
                        && before[q].events@.contains(i);
                assert(after[q] == before[q]);
            }
            if t == tok@ && i == idx {
                assert(after[n as int].token@ == t);
            }
            if lists_event(after, t, i) {
                let q = choose|q: int|
                    0 <= q < after.len() && (#[trigger] after[q]).token@ == t
                        && after[q].events@.contains(i);
                if q == n {
                    assert(after[q].events@ =~= seq![idx]);
                }
            }
        }
    }
}

/// Adds event `idx` to the entries of all non-empty `tokens`.
fn add_tokens(entries: &mut Vec<TokenEntry>, tokens: &Vec<Vec<char>>, idx: usize)
    ensures
        forall|t: Seq<char>|
            #![trigger has_token(final(entries)@, t)]
            has_token(final(entries)@, t) <==> has_token(old(entries)@, t) || (views(
                tokens@,
            ).contains(t) && t.len() > 0),
        forall|t: Seq<char>, i: usize|
            #![trigger lists_event(final(entries)@, t, i)]
            lists_event(final(entries)@, t, i) <==> lists_event(old(entries)@, t, i) || (
            views(tokens@).contains(t) && t.len() > 0 && i == idx),
        distinct_tokens(old(entries)@) ==> distinct_tokens(final(entries)@),
{
    let n = tokens.len();
    for j in 0..n
        invariant
            n == tokens@.len(),
            forall|t: Seq<char>|
                #![trigger has_token(entries@, t)]
                has_token(entries@, t) <==> has_token(old(entries)@, t) || (views(tokens@).take(
                    j as int,
                ).contains(t) && t.len() > 0),
            forall|t: Seq<char>, i: usize|
                #![trigger lists_event(entries@, t, i)]
                lists_event(entries@, t, i) <==> lists_event(old(entries)@, t, i) || (
                views(tokens@).take(j as int).contains(t) && t.len() > 0 && i == idx),
            distinct_tokens(old(entries)@) ==> distinct_tokens(entries@),
    {
        if tokens[j].len() > 0 {
            add_token(entries, &tokens[j], idx);
        }
        proof {
            let dv = views(tokens@);
            assert(dv[j as int] == tokens@[j as int]@);
            lemma_take_next_contains(dv, j as int);
        }
    }
    assert(views(tokens@).take(n as int) =~= views(tokens@));
}

/// The entries of all tokens of `events`, common words included.
fn collect_tokens(events: &[Event]) -> (rv: Vec<TokenEntry>)
    requires
        forall|i: int| 0 <= i < events@.len() ==> has_readable_text(#[trigger] events@[i]),
    ensures
        distinct_tokens(rv@),
        forall|t: Seq<char>|
            #![trigger has_token(rv@, t)]
            has_token(rv@, t) <==> t.len() > 0 && exists|i: int|
                0 <= i < events@.len() && #[trigger] event_tokens(events@[i]).contains(t),
        forall|t: Seq<char>, i: usize|
            #![trigger lists_event(rv@, t, i)]
            lists_event(rv@, t, i) <==> t.len() > 0 && i < events@.len() && event_tokens(
                events@[i as int],
            ).contains(t),
{
    let mut rv: Vec<TokenEntry> = Vec::new();
    let n = events.len();
    for i_event in 0..n
        invariant
            n == events@.len(),
            forall|i: int| 0 <= i < events@.len() ==> has_readable_text(#[trigger] events@[i]),
            distinct_tokens(rv@),
            forall|t: Seq<char>|
                #![trigger has_token(rv@, t)]
                has_token(rv@, t) <==> t.len() > 0 && exists|i: int|
                    0 <= i < i_event && #[trigger] event_tokens(events@[i]).contains(t),
            forall|t: Seq<char>, i: usize|
                #![trigger lists_event(rv@, t, i)]
                lists_event(rv@, t, i) <==> t.len() > 0 && i < i_event && event_tokens(
                    events@[i as int],
                ).contains(t),
    {
        let event = &events[i_event];
        let details_tokens = tokenize(event.details.as_str());
        add_tokens(&mut rv, &details_tokens, i_event);
        let summary_tokens = tokenize(event.summary.as_str());
        add_tokens(&mut rv, &summary_tokens, i_event);
        proof {
            let e = events@[i_event as int];
            assert(views(details_tokens@) + views(summary_tokens@) == event_tokens(e));
            assert forall|t: Seq<char>| event_tokens(e).contains(t) <==> views(details_tokens@).contains(t)
                || views(summary_tokens@).contains(t) by {
                let d = views(details_tokens@);
                let s = views(summary_tokens@);
                if event_tokens(e).contains(t) {
                    let q = choose|q: int| 0 <= q < (d + s).len() && (d + s)[q] == t;
                    if q < d.len() {
                        assert(d[q] == t);
                    } else {
                        assert(s[q - d.len()] == t);
                    }
                }
                if d.contains(t) {
                    let q = choose|q: int| 0 <= q < d.len() && d[q] == t;
                    assert((d + s)[q] == t);
                }
                if s.contains(t) {
                    let q = choose|q: int| 0 <= q < s.len() && s[q] == t;
                    assert((d + s)[q + d.len()] == t);
                }
            }
            assert forall|t: Seq<char>| #[trigger] has_token(rv@, t) <==> t.len() > 0 && exists|i: int|
                0 <= i < i_event + 1 && #[trigger] event_tokens(events@[i]).contains(t) by {
                if event_tokens(e).contains(t) {
                    assert(0 <= i_event < i_event + 1);
                }
            }
        }
    }
    rv
}

/// The entries whose tokens are not common words.
#[verifier::rlimit(40)]
fn remove_stop_words(rv: Vec<TokenEntry>) -> (kept: Vec<TokenEntry>)
    requires
        distinct_tokens(rv@),
    ensures
        distinct_tokens(kept@),
        forall|t: Seq<char>|
            #![trigger has_token(kept@, t)]
            has_token(kept@, t) <==> has_token(rv@, t) && !is_stop_word(t),
        forall|t: Seq<char>, i: usize|
            #![trigger lists_event(kept@, t, i)]
            lists_event(kept@, t, i) <==> lists_event(rv@, t, i) && !is_stop_word(t),
{
    let mut rv = rv;
    let stops = stop_words();
    let mut kept: Vec<TokenEntry> = Vec::new();
    let ghost all = rv@;
    while rv.len() > 0
        invariant
            all.len() >= rv@.len(),
            rv@ == all.take(rv@.len() as int),
            distinct_tokens(all),
            forall|u: Seq<char>|
                is_stop_word(u) <==> exists|k: int| 0 <= k < stops@.len() && #[trigger] stops@[k]@ == u,
            forall|q: int|
                0 <= q < kept@.len() ==> exists|k: int|
                    rv@.len() <= k < all.len() && #[trigger] kept@[q] == all[k],
            distinct_tokens(kept@),
            forall|q: int| 0 <= q < kept@.len() ==> !is_stop_word(#[trigger] kept@[q].token@),
            forall|k: int|
                rv@.len() <= k < all.len() && !is_stop_word(#[trigger] all[k].token@) ==> exists|q: int|
                    0 <= q < kept@.len() && #[trigger] kept@[q] == all[k],
        decreases rv@.len(),
    {
        let ghost len = rv@.len();
        let ghost old_kept = kept@;
        let e = rv.pop().unwrap();
        assert(e == all[len - 1]);
        assert(rv@ =~= all.take(rv@.len() as int));
        if !is_stop_token(&e.token, &stops) {
            kept.push(e);
            proof {
                assert(kept@[old_kept.len() as int] == all[len - 1]);
                assert forall|q: int| 0 <= q < kept@.len() implies exists|k: int|
                    rv@.len() <= k < all.len() && #[trigger] kept@[q] == all[k] by {
                    if q < old_kept.len() {
                        assert(kept@[q] == old_kept[q]);
                        let k = choose|k: int| len <= k < all.len() && #[trigger] old_kept[q] == all[k];
                        assert(kept@[q] == all[k]);
                    } else {
                        assert(kept@[q] == all[len - 1]);
                    }
                }
                assert forall|a: int, b: int| 0 <= a < b < kept@.len() implies (#[trigger] kept@[a]).token@
                    != (#[trigger] kept@[b]).token@ by {
                    if b == old_kept.len() {
                        assert(kept@[a] == old_kept[a]);
                        let k = choose|k: int| len <= k < all.len() && #[trigger] old_kept[a] == all[k];
                        assert(all[k].token@ != all[len - 1].token@);
                    } else {
                        assert(kept@[a] == old_kept[a] && kept@[b] == old_kept[b]);
                    }
                }
                assert forall|k: int|
                    rv@.len() <= k < all.len() && !is_stop_word(#[trigger] all[k].token@) implies exists|q: int|
                        0 <= q < kept@.len() && #[trigger] kept@[q] == all[k] by {
                    if k == len - 1 {
                        assert(kept@[old_kept.len() as int] == all[k]);
                    } else {
                        let q = choose|q: int| 0 <= q < old_kept.len() && #[trigger] old_kept[q] == all[k];
                        assert(kept@[q] == old_kept[q]);
                    }
                }
            }
        } else {
            proof {
                assert forall|q: int| 0 <= q < kept@.len() implies exists|k: int|
                    rv@.len() <= k < all.len() && #[trigger] kept@[q] == all[k] by {
                    let k = choose|k: int| len <= k < all.len() && #[trigger] old_kept[q] == all[k];
                    assert(kept@[q] == all[k]);
                }
            }
        }
    }
    proof {
        assert forall|t: Seq<char>| #[trigger] has_token(kept@, t) <==> has_token(all, t) && !is_stop_word(t) by {
            if has_token(kept@, t) {
                let q = choose|q: int| 0 <= q < kept@.len() && (#[trigger] kept@[q]).token@ == t;
                let k = choose|k: int| 0 <= k < all.len() && #[trigger] kept@[q] == all[k];
                assert(all[k].token@ == t);
            }
            if has_token(all, t) && !is_stop_word(t) {
                let k = choose|k: int| 0 <= k < all.len() && (#[trigger] all[k]).token@ == t;
                let q = choose|q: int| 0 <= q < kept@.len() && #[trigger] kept@[q] == all[k];
                assert(kept@[q].token@ == t);
            }
        }
        assert forall|t: Seq<char>, i: usize| #[trigger] lists_event(kept@, t, i) <==> lists_event(all, t, i)
            && !is_stop_word(t) by {
            if lists_event(kept@, t, i) {
                let q = choose|q: int|
                    0 <= q < kept@.len() && (#[trigger] kept@[q]).token@ == t && kept@[q].events@.contains(i);
                let k = choose|k: int| 0 <= k < all.len() && #[trigger] kept@[q] == all[k];
                assert(all[k].token@ == t);
            }
            if lists_event(all, t, i) && !is_stop_word(t) {
                let k = choose|k: int|
                    0 <= k < all.len() && (#[trigger] all[k]).token@ == t && all[k].events@.contains(i);
                let q = choose|q: int| 0 <= q < kept@.len() && #[trigger] kept@[q] == all[k];
                assert(kept@[q].token@ == t);
            }
        }
    }
    kept
}

/// Builds the token map of `events`: every word of their details and
/// summaries, except common words, with the positions of the events that
/// contain it.  Words are the non-empty pieces left after HTML tags,
/// punctuation and white space are taken out.
pub fn construct_document_token_map(events: &[Event]) -> (map: DocumentTokenMap)
    requires
        forall|i: int| 0 <= i < events@.len() ==> has_readable_text(#[trigger] events@[i]),
    ensures
        map@ == token_map_of(events@),
        map.wf(),
        forall|t: Seq<char>|
            #[trigger] map@.dom().contains(t) ==> t.len() > 0 && forall|j: int|
                0 <= j < t.len() ==> !is_separator(#[trigger] t[j]),
        forall|i: usize, t: Seq<char>|
            i < events@.len() && #[trigger] event_tokens(events@[i as int]).contains(t) && t.len() > 0
                && t != "a"@ && t != "be"@ && t != "are"@ && t != "the"@ && t != "for"@ && t != "in"@
                && t != "an"@ && t != "that"@ && t != "with"@ ==> map@.dom().contains(t)
                && map@[t].contains(i),
{
    let all = collect_tokens(events);
    let kept = remove_stop_words(all);
    let map = DocumentTokenMap { entries: kept };
    proof {
        lemma_words_hold_no_separators(events@);
        lemma_index_leaves_out_only_common_words(events@);
        assert forall|t: Seq<char>| #[trigger] map@.dom().contains(t) <==> token_map_of(events@).dom().contains(t) by {
        }
        assert forall|t: Seq<char>| #[trigger] map@.dom().contains(t) implies map@[t] == token_map_of(events@)[t] by {
            assert(map@[t] =~= token_map_of(events@)[t]);
        }
        assert(map@ =~= token_map_of(events@));
    }
    map
}

// ---------------------------------------------------------------------------
// Queries
// ---------------------------------------------------------------------------

/// How far, in edit distance, a query word may be from a word of the map
/// and still find that word's events.
pub const SEARCH_TOLERANCE: usize = 1;

/// The query word `w` finds the map word `t`: `w` is within
/// [`SEARCH_TOLERANCE`] edits of `t`.
pub open spec fn near(w: Seq<char>, t: Seq<char>) -> bool {
    edit_distance(w, t) <= SEARCH_TOLERANCE
}

/// The positions listed in `map` under any word that a word of `words`
/// finds.
pub open spec fn query_matches(words: Seq<Seq<char>>, map: Map<Seq<char>, Set<usize>>) -> Set<usize> {
    Set::new(
        |i: usize|
            exists|w: Seq<char>, t: Seq<char>|
                #![trigger words.contains(w), map.dom().contains(t)]
                words.contains(w) && map.dom().contains(t) && near(w, t) && map[t].contains(i),
    )
}

/// Searching finds exactly the events with a word, not a common one, that
/// some word of the query finds.
pub proof fn lemma_search_finds_exactly(events: Seq<Event>, query: Seq<char>)
    ensures
        query_matches(split_spaces(query), token_map_of(events)) == Set::new(
            |i: usize|
                i < events.len() && exists|w: Seq<char>, t: Seq<char>|
                    #![trigger split_spaces(query).contains(w), event_tokens(events[i as int]).contains(t)]
                    split_spaces(query).contains(w) && event_tokens(events[i as int]).contains(t)
                        && t.len() > 0 && !is_stop_word(t) && near(w, t),
        ),
{
    let words = split_spaces(query);
    let map = token_map_of(events);
    let expected = Set::new(
        |i: usize|
            i < events.len() && exists|w: Seq<char>, t: Seq<char>|
                #![trigger words.contains(w), event_tokens(events[i as int]).contains(t)]
                words.contains(w) && event_tokens(events[i as int]).contains(t) && t.len() > 0
                    && !is_stop_word(t) && near(w, t),
    );
    assert forall|i: usize| #[trigger] query_matches(words, map).contains(i) <==> expected.contains(i) by {
        if query_matches(words, map).contains(i) {
            let (w, t) = choose|w: Seq<char>, t: Seq<char>|
                words.contains(w) && map.dom().contains(t) && near(w, t) && map[t].contains(i);
            assert(words.contains(w) && event_tokens(events[i as int]).contains(t));
        }
        if expected.contains(i) {
            let (w, t) = choose|w: Seq<char>, t: Seq<char>|
                words.contains(w) && event_tokens(events[i as int]).contains(t) && t.len() > 0
                    && !is_stop_word(t) && near(w, t);
            assert(map.dom().contains(t));
            assert(map[t].contains(i));
        }
    }
    assert(query_matches(words, map) =~= expected);
}

/// Splitting two texts joined by one space gives the pieces of the first,
/// then those of the second.
pub proof fn lemma_split_joined(a: Seq<char>, b: Seq<char>)
    ensures
        split_spaces(a + seq![' '] + b) == split_spaces(a) + split_spaces(b),
    decreases b.len(),
{
    let s = a + seq![' '] + b;
    if b.len() == 0 {
        assert(s.drop_last() =~= a);
        assert(split_spaces(a) + split_spaces(b) =~= split_spaces(a).push(Seq::<char>::empty()));
    } else {
        assert(s.drop_last() =~= a + seq![' '] + b.drop_last());
        lemma_split_joined(a, b.drop_last());
        lemma_split_spaces_nonempty(b.drop_last());
        let left = split_spaces(a);
        let r = split_spaces(b.drop_last());
        if b.last() == ' ' {
            assert(split_spaces(s) =~= (left + r).push(Seq::<char>::empty()));
            assert((left + r).push(Seq::<char>::empty()) =~= left + r.push(Seq::<char>::empty()));
        } else {
            let lr = left + r;
            assert(split_spaces(s) == lr.update(lr.len() - 1, lr.last().push(b.last())));
            assert(lr.last() == r.last());
            assert(lr.update(lr.len() - 1, lr.last().push(b.last())) =~= left + r.update(
                r.len() - 1,
                r.last().push(b.last()),
            ));
        }
    }
}

/// A query of two parts joined by a space finds what the parts find
/// together.
pub proof fn lemma_query_joined(
    q1: Seq<char>,
    q2: Seq<char>,
    map: Map<Seq<char>, Set<usize>>,
)
    ensures
        query_matches(split_spaces(q1 + seq![' '] + q2), map) == query_matches(
            split_spaces(q1),
            map,
        ).union(query_matches(split_spaces(q2), map)),
{
    lemma_split_joined(q1, q2);
    let w1 = split_spaces(q1);
    let w2 = split_spaces(q2);
    let all = w1 + w2;
    assert forall|w: Seq<char>| #[trigger] all.contains(w) <==> w1.contains(w) || w2.contains(w) by {
        if all.contains(w) {
            let k = choose|k: int| 0 <= k < all.len() && all[k] == w;
            if k < w1.len() {
                assert(w1[k] == w);
            } else {
                assert(w2[k - w1.len()] == w);
            }
        }
        if w1.contains(w) {
            let k = choose|k: int| 0 <= k < w1.len() && w1[k] == w;
            assert(all[k] == w);
        }
        if w2.contains(w) {
            let k = choose|k: int| 0 <= k < w2.len() && w2[k] == w;
            assert(all[k + w1.len()] == w);
        }
    }
    let lhs = query_matches(all, map);
    let rhs = query_matches(w1, map).union(query_matches(w2, map));
    assert forall|i: usize| #[trigger] lhs.contains(i) <==> rhs.contains(i) by {
        if lhs.contains(i) {
            let (w, t) = choose|w: Seq<char>, t: Seq<char>|
                all.contains(w) && map.dom().contains(t) && near(w, t) && map[t].contains(i);
            if w1.contains(w) {
                assert(query_matches(w1, map).contains(i));
            } else {
                assert(query_matches(w2, map).contains(i));
            }
        }
        if query_matches(w1, map).contains(i) {
            let (w, t) = choose|w: Seq<char>, t: Seq<char>|
                w1.contains(w) && map.dom().contains(t) && near(w, t) && map[t].contains(i);
            assert(all.contains(w));
        }
        if query_matches(w2, map).contains(i) {
            let (w, t) = choose|w: Seq<char>, t: Seq<char>|
                w2.contains(w) && map.dom().contains(t) && near(w, t) && map[t].contains(i);
            assert(all.contains(w));
        }
    }
    assert(lhs =~= rhs);
}

/// `words` with each run of equal neighbouring words cut to one word.
pub open spec fn dedup_adjacent(words: Seq<Seq<char>>) -> Seq<Seq<char>>
    decreases words.len(),
{
    if words.len() == 0 {
        words
    } else {
        let d = dedup_adjacent(words.drop_last());
        if d.len() > 0 && d.last() == words.last() {
            d
        } else {
            d.push(words.last())
        }
    }
}

/// Drops repeated words that follow each other.
fn dedup_words(words: Vec<Vec<char>>) -> (r: Vec<Vec<char>>)
    ensures
        views(r@) == dedup_adjacent(views(words@)),
        forall|w: Seq<char>| #[trigger] views(r@).contains(w) <==> views(words@).contains(w),
{
    let mut r: Vec<Vec<char>> = Vec::new();
    let ghost all = views(words@);
    let total = words.len();
    let mut rest = words;
    let mut taken: usize = 0;
    while rest.len() > 0
        invariant
            all.len() == total,
            views(rest@) == all.skip(taken as int),
            taken <= all.len(),
            forall|w: Seq<char>| #[trigger] views(r@).contains(w) <==> all.take(taken as int).contains(w),
            r@.len() > 0 ==> taken > 0 && views(r@).last() == all[taken - 1],
            views(r@) == dedup_adjacent(all.take(taken as int)),
        decreases rest@.len(),
    {
        let ghost old_rest = rest@;
        assert(views(old_rest).len() == old_rest.len());
        assert(taken < all.len());
        assert(views(old_rest)[0] == all.skip(taken as int)[0]);
        assert(views(old_rest)[0] == old_rest[0]@);
        let w = rest.remove(0);
        let ghost wv = w@;
        assert(w == old_rest[0]);
        assert(wv == all[taken as int]);
        let n = r.len();
        let skip = n > 0 && chars_equal(&r[n - 1], &w);
        let ghost before = views(r@);
        if !skip {
            r.push(w);
        }
        proof {
            lemma_take_next_contains(all, taken as int);
            let now = views(r@);
            assert forall|u: Seq<char>| #[trigger] now.contains(u) <==> before.contains(u) || u == wv by {
                if !skip {
                    assert(now =~= before.push(wv));
                    if now.contains(u) {
                        let z = choose|z: int| 0 <= z < now.len() && now[z] == u;
                        if z < before.len() {
                            assert(before[z] == u);
                        }
                    }
                    if before.contains(u) {
                        let z = choose|z: int| 0 <= z < before.len() && before[z] == u;
                        assert(now[z] == u);
                    }
                    if u == wv {
                        assert(now[before.len() as int] == u);
                    }
                } else {
                    assert(now == before);
                    assert(before[n - 1] == wv);
                }
            }
        }
        proof {
            let t1 = all.take(taken + 1);
            assert(t1.drop_last() =~= all.take(taken as int));
            assert(t1.last() == wv);
            if !skip {
                assert(views(r@) =~= before.push(wv));
            }
            assert(views(r@) == dedup_adjacent(t1));
        }
        taken = taken + 1;
        assert(rest@ =~= old_rest.skip(1));
        assert(views(rest@) =~= views(old_rest).skip(1));
        assert(views(rest@) =~= all.skip(taken as int));
    }
    assert(all.take(taken as int) =~= all);
    r
}

/// Some entry whose token the query word `w` finds lists event `i`.
pub open spec fn lists_near(es: Seq<TokenEntry>, w: Seq<char>, i: usize) -> bool {
    exists|k: int| 0 <= k < es.len() && near(w, (#[trigger] es[k]).token@) && es[k].events@.contains(i)
}

/// Whether `t` is within [`SEARCH_TOLERANCE`] edits of `w`; words whose
/// lengths differ by more are told apart without the table.
fn within_tolerance(w: &Vec<char>, t: &Vec<char>) -> (b: bool)
    requires
        w@.len() + SEARCH_TOLERANCE < usize::MAX,
    ensures
        b == (edit_distance(w@, t@) <= SEARCH_TOLERANCE),
{
    let lw = w.len();
    let lt = t.len();
    if lt > lw + SEARCH_TOLERANCE || lw > lt + SEARCH_TOLERANCE {
        proof {
            lemma_edit_distance_bounds(w@, t@);
        }
        return false;
    }
    levenshtein_dist_chars(w, t) <= SEARCH_TOLERANCE
}

/// The positions of the events that a word of `query` finds: the words of
/// the query are the pieces between single spaces, taken as they are, and
/// each finds the map words within [`SEARCH_TOLERANCE`] edits; a query word
/// equal to a map word finds all of that word's events.
pub fn query_document_token_map(query: &str, map: &DocumentTokenMap) -> (indices: HashSet<usize>)
    requires
        query@.len() + SEARCH_TOLERANCE < usize::MAX,
    ensures
        indices@ == query_matches(split_spaces(query@), map@),
        forall|w: Seq<char>|
            #![trigger split_spaces(query@).contains(w), map@.dom().contains(w)]
            split_spaces(query@).contains(w) && map@.dom().contains(w) ==> map@[w].subset_of(
                indices@,
            ),
        forall|w: Seq<char>, t: Seq<char>|
            #![trigger split_spaces(query@).contains(w), map@.dom().contains(t)]
            split_spaces(query@).contains(w) && map@.dom().contains(t) && edit_distance(w, t) <= 1
                ==> map@[t].subset_of(indices@),
        forall|i: usize|
            #[trigger] indices@.contains(i) ==> exists|w: Seq<char>, t: Seq<char>|
                #![trigger split_spaces(query@).contains(w), map@.dom().contains(t)]
                split_spaces(query@).contains(w) && map@.dom().contains(t) && edit_distance(w, t) <= 1
                    && map@[t].contains(i),
{
    let query_chars = chars_of(query);
    let words = dedup_words(split_on_spaces(&query_chars));
    let ghost all_words = split_spaces(query@);
    proof {
        lemma_split_pieces(query@);
    }
    let ghost es = map.entries@;
    let mut indices: HashSet<usize> = HashSet::new();
    let nw = words.len();
    let ne = map.entries.len();
    for a in 0..nw
        invariant
            nw == words@.len(),
            ne == map.entries@.len(),
            es == map.entries@,
            query@.len() + SEARCH_TOLERANCE < usize::MAX,
            forall|w: Seq<char>| #[trigger] views(words@).contains(w) <==> all_words.contains(w),
            forall|k: int|
                0 <= k < all_words.len() ==> (#[trigger] all_words[k]).len() <= query@.len(),
            indices@ == Set::new(
                |i: usize|
                    exists|w: Seq<char>|
                        #[trigger] views(words@).take(a as int).contains(w) && lists_near(es, w, i),
            ),
    {
        let w = &words[a];
        proof {
            let dv = views(words@);
            assert(dv[a as int] == w@);
            assert(dv.contains(w@));
            let k = choose|k: int| 0 <= k < all_words.len() && all_words[k] == w@;
            assert(all_words[k].len() <= query@.len());
        }
        for b in 0..ne
            invariant
                nw == words@.len(),
                ne == map.entries@.len(),
                es == map.entries@,
                a < nw,
                w@ == views(words@)[a as int],
                w@.len() + SEARCH_TOLERANCE < usize::MAX,
                indices@ == Set::new(
                    |i: usize|
                        (exists|w2: Seq<char>|
                            #[trigger] views(words@).take(a as int).contains(w2) && lists_near(es, w2, i))
                            || (exists|k: int|
                            0 <= k < b && near(w@, (#[trigger] es[k]).token@)
                                && es[k].events@.contains(i)),
                ),
        {
            let entry = &map.entries[b];
            let close = within_tolerance(w, &entry.token);
            if close {
                let m = entry.events.len();
                for c in 0..m
                    invariant
                        m == entry.events@.len(),
                        es == map.entries@,
                        entry == &es[b as int],
                        b < es.len(),
                        near(w@, entry.token@),
                        indices@ == Set::new(
                            |i: usize|
                                (exists|w2: Seq<char>|
                                    #[trigger] views(words@).take(a as int).contains(w2)
                                        && lists_near(es, w2, i)) || (exists|k: int|
                                    0 <= k < b && near(w@, (#[trigger] es[k]).token@)
                                        && es[k].events@.contains(i))
                                    || entry.events@.take(c as int).contains(i),
                        ),
                {
                    indices.insert(entry.events[c]);
                    proof {
                        assert(indices@ =~= Set::new(
                            |i: usize|
                                (exists|w2: Seq<char>|
                                    #[trigger] views(words@).take(a as int).contains(w2)
                                        && lists_near(es, w2, i)) || (exists|k: int|
                                    0 <= k < b && near(w@, (#[trigger] es[k]).token@)
                                        && es[k].events@.contains(i))
                                    || entry.events@.take(c + 1).contains(i),
                        )) by {
                            lemma_take_next_contains(entry.events@, c as int);
                        }
                    }
                }
                proof {
                    assert(entry.events@.take(m as int) =~= entry.events@);
                    assert(indices@ =~= Set::new(
                        |i: usize|
                            (exists|w2: Seq<char>|
                                #[trigger] views(words@).take(a as int).contains(w2) && lists_near(es, w2, i))
                                || (exists|k: int|
                                0 <= k < b + 1 && near(w@, (#[trigger] es[k]).token@)
                                    && es[k].events@.contains(i)),
                    ));
                }
            } else {
                proof {
                    assert(!near(w@, es[b as int].token@));
                    assert(indices@ =~= Set::new(
                        |i: usize|
                            (exists|w2: Seq<char>|
                                #[trigger] views(words@).take(a as int).contains(w2) && lists_near(es, w2, i))
                                || (exists|k: int|
                                0 <= k < b + 1 && near(w@, (#[trigger] es[k]).token@)
                                    && es[k].events@.contains(i)),
                    ));
                }
            }
        }
        proof {
            let dv = views(words@);
            lemma_take_next_contains(dv, a as int);
            assert(w@ == dv[a as int]);
            assert(dv.take(a + 1).contains(w@));
            assert forall|i: usize| #[trigger] indices@.contains(i) <==> exists|w2: Seq<char>|
                #[trigger] dv.take(a + 1).contains(w2) && lists_near(es, w2, i) by {
                if indices@.contains(i) {
                    if exists|k: int|
                        0 <= k < ne && near(w@, (#[trigger] es[k]).token@) && es[k].events@.contains(i) {
                        assert(lists_near(es, w@, i));
                    } else {
                        let w2 = choose|w2: Seq<char>| #[trigger] dv.take(a as int).contains(w2) && lists_near(es, w2, i);
                        assert(dv.take(a + 1).contains(w2));
                    }
                }
                if exists|w2: Seq<char>| #[trigger] dv.take(a + 1).contains(w2) && lists_near(es, w2, i) {
                    let w2 = choose|w2: Seq<char>| #[trigger] dv.take(a + 1).contains(w2) && lists_near(es, w2, i);
                    if !dv.take(a as int).contains(w2) {
                        assert(w2 == w@);
                        let k = choose|k: int| 0 <= k < es.len() && near(w2, (#[trigger] es[k]).token@) && es[k].events@.contains(i);
                        assert(0 <= k < ne);
                    }
                }
            }
            assert(indices@ =~= Set::new(
                |i: usize|
                    exists|w2: Seq<char>|
                        #[trigger] dv.take(a + 1).contains(w2) && lists_near(es, w2, i),
            ));
        }
    }
    proof {
        assert(views(words@).take(nw as int) =~= views(words@));
        assert forall|i: usize| #[trigger] indices@.contains(i) <==> query_matches(all_words, map@).contains(i) by {
            if indices@.contains(i) {
                let w2 = choose|w2: Seq<char>| #[trigger] views(words@).take(nw as int).contains(w2) && lists_near(es, w2, i);
                assert(views(words@).contains(w2));
                assert(all_words.contains(w2));
                let k = choose|k: int| 0 <= k < es.len() && near(w2, (#[trigger] es[k]).token@) && es[k].events@.contains(i);
                let t = es[k].token@;
                assert(has_token(es, t));
                assert(lists_event(es, t, i));
                assert(map@.dom().contains(t));
                assert(map@[t].contains(i));
            }
            if query_matches(all_words, map@).contains(i) {
                let (w2, t) = choose|w2: Seq<char>, t: Seq<char>|
                    all_words.contains(w2) && map@.dom().contains(t) && near(w2, t) && map@[t].contains(i);
                assert(lists_event(es, t, i));
                let k = choose|k: int| 0 <= k < es.len() && (#[trigger] es[k]).token@ == t && es[k].events@.contains(i);
                assert(lists_near(es, w2, i));
                assert(views(words@).contains(w2));
                assert(views(words@).take(nw as int).contains(w2));
            }
        }
        assert(indices@ =~= query_matches(all_words, map@));
        assert forall|w: Seq<char>|
            all_words.contains(w) && map@.dom().contains(w) implies map@[w].subset_of(indices@) by {
            lemma_edit_distance_zero_iff_equal(w, w);
            assert forall|i: usize| map@[w].contains(i) implies indices@.contains(i) by {
                assert(near(w, w));
                assert(query_matches(all_words, map@).contains(i));
            }
        }
        assert forall|w: Seq<char>, t: Seq<char>|
            all_words.contains(w) && map@.dom().contains(t) && edit_distance(w, t) <= 1 implies map@[t].subset_of(
            indices@) by {
            assert forall|i: usize| map@[t].contains(i) implies indices@.contains(i) by {
                assert(query_matches(all_words, map@).contains(i));
            }
        }
    }
    indices
}

/// Every piece is no longer than the text, holds no space, and is made of
/// characters of the text.
proof fn lemma_split_pieces(s: Seq<char>)
    ensures
        forall|k: int|
            0 <= k < split_spaces(s).len() ==> (#[trigger] split_spaces(s)[k]).len() <= s.len(),
        forall|k: int, j: int|
            0 <= k < split_spaces(s).len() && 0 <= j < split_spaces(s)[k].len() ==> (
            #[trigger] split_spaces(s)[k][j]) != ' ' && s.contains(split_spaces(s)[k][j]),
    decreases s.len(),
{
    if s.len() > 0 {
        let d = s.drop_last();
        lemma_split_pieces(d);
        lemma_split_spaces_nonempty(d);
        let r = split_spaces(d);
        let p = split_spaces(s);
        assert forall|x: char| d.contains(x) implies s.contains(x) by {
            let m = choose|m: int| 0 <= m < d.len() && d[m] == x;
            assert(s[m] == x);
        }
        assert(s.contains(s.last())) by {
            assert(s[s.len() - 1] == s.last());
        }
        if s.last() == ' ' {
            assert(p == r.push(Seq::<char>::empty()));
            assert forall|k: int, j: int| 0 <= k < p.len() && 0 <= j < p[k].len() implies (
            #[trigger] p[k][j]) != ' ' && s.contains(p[k][j]) by {
                assert(k < r.len());
                assert(p[k] == r[k]);
                assert(d.contains(r[k][j]));
            }
        } else {
            assert(p == r.update(r.len() - 1, r.last().push(s.last())));
            assert forall|k: int| 0 <= k < p.len() implies (#[trigger] p[k]).len() <= s.len() by {
                if k < r.len() - 1 {
                    assert(p[k] == r[k]);
                } else {
                    assert(r[r.len() - 1].len() <= d.len());
                }
            }
            assert forall|k: int, j: int| 0 <= k < p.len() && 0 <= j < p[k].len() implies (
            #[trigger] p[k][j]) != ' ' && s.contains(p[k][j]) by {
                if k < r.len() - 1 {
                    assert(p[k] == r[k]);
                    assert(d.contains(r[k][j]));
                } else if j < r.last().len() {
                    assert(p[k][j] == r[r.len() - 1][j]);
                    assert(d.contains(r[r.len() - 1][j]));
                } else {
                    assert(p[k][j] == s.last());
                }
            }
        }
    }
}

/// Lower-casing keeps a character that is not a separator.
proof fn lemma_lower_keeps_words(c: char)
    requires
        !is_separator(c),
    ensures
        !is_separator(ascii_lower(c)),
{
}

/// Cleaning keeps the length, and leaves only spaces and characters that
/// are not separators.
proof fn lemma_cleaned_chars(s: Seq<char>, in_tag: bool)
    ensures
        cleaned_from(s, in_tag).len() == s.len(),
        forall|j: int|
            0 <= j < s.len() ==> #[trigger] cleaned_from(s, in_tag)[j] == ' ' || !is_separator(
                cleaned_from(s, in_tag)[j],
            ),
    decreases s.len(),
{
    if s.len() > 0 {
        let c = s[0];
        lemma_cleaned_chars(s.drop_first(), in_tag_after(c, in_tag, s.drop_first()));
        let r = cleaned_from(s, in_tag);
        let rest = cleaned_from(s.drop_first(), in_tag_after(c, in_tag, s.drop_first()));
        assert(r == seq![cleaned_char(c, in_tag)] + rest);
        if !(in_tag || is_separator(c)) {
            lemma_lower_keeps_words(c);
        }
        assert forall|j: int| 0 <= j < s.len() implies #[trigger] r[j] == ' ' || !is_separator(r[j]) by {
            if j > 0 {
                assert(r[j] == rest[j - 1]);
            }
        }
    }
}

/// The words of a cleaned text hold no separator.
proof fn lemma_cleaned_words(x: Seq<char>, t: Seq<char>)
    requires
        split_spaces(cleaned(x)).contains(t),
    ensures
        forall|j: int| 0 <= j < t.len() ==> !is_separator(#[trigger] t[j]),
{
    let c = cleaned(x);
    lemma_split_pieces(c);
    lemma_cleaned_chars(x, false);
    let k = choose|k: int| 0 <= k < split_spaces(c).len() && split_spaces(c)[k] == t;
    assert forall|j: int| 0 <= j < t.len() implies !is_separator(#[trigger] t[j]) by {
        assert(split_spaces(c)[k][j] == t[j]);
        assert(c.contains(t[j]));
        let m = choose|m: int| 0 <= m < c.len() && c[m] == t[j];
        assert(c[m] == ' ' || !is_separator(c[m]));
    }
}

/// Every word of the map of `events` is non-empty and holds no
/// punctuation or white space, so no HTML tag either.
pub proof fn lemma_words_hold_no_separators(events: Seq<Event>)
    ensures
        forall|t: Seq<char>|
            #[trigger] token_map_of(events).dom().contains(t) ==> t.len() > 0 && forall|j: int|
                0 <= j < t.len() ==> !is_separator(#[trigger] t[j]),
{
    assert forall|t: Seq<char>| #[trigger] token_map_of(events).dom().contains(t) implies t.len() > 0
        && forall|j: int| 0 <= j < t.len() ==> !is_separator(#[trigger] t[j]) by {
        let i = choose|i: int| 0 <= i < events.len() && #[trigger] event_tokens(events[i]).contains(t);
        let e = events[i];
        let d = split_spaces(cleaned(buffer_text(e.details.length, e.details.buffer@)));
        let s = split_spaces(cleaned(buffer_text(e.summary.length, e.summary.buffer@)));
        let q = choose|q: int| 0 <= q < (d + s).len() && (d + s)[q] == t;
        if q < d.len() {
            assert(d[q] == t);
            assert(d.contains(t));
            lemma_cleaned_words(buffer_text(e.details.length, e.details.buffer@), t);
        } else {
            assert(s[q - d.len()] == t);
            assert(s.contains(t));
            lemma_cleaned_words(buffer_text(e.summary.length, e.summary.buffer@), t);
        }
    }
}

} // verus!
