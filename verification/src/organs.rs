//! The organs' text handling: what the organism says is split into the
//! tokens its own ear should hear back.

use vstd::prelude::*;
use vstd::string::*;
use vstd::utf8::*;
use crate::text::chars_of;

verus! {

/// Unicode's White_Space property, which `char::is_whitespace` tests.
pub open spec fn is_white_space(c: char) -> bool {
    let u = c as u32;
    ||| 0x9 <= u <= 0xD
    ||| u == 0x20
    ||| u == 0x85
    ||| u == 0xA0
    ||| u == 0x1680
    ||| 0x2000 <= u <= 0x200A
    ||| u == 0x2028
    ||| u == 0x2029
    ||| u == 0x202F
    ||| u == 0x205F
    ||| u == 0x3000
}

/// The words of `s`: its maximal runs of characters that are not white
/// space, in order (what `str::split_whitespace` yields).
pub open spec fn words(s: Seq<char>) -> Seq<Seq<char>>
    decreases s.len(),
{
    if s.len() == 0 {
        Seq::empty()
    } else {
        let w = words(s.drop_last());
        let c = s.last();
        if is_white_space(c) {
            w
        } else if s.len() >= 2 && !is_white_space(s[s.len() - 2]) {
            w.drop_last().push(w.last().push(c))
        } else {
            w.push(seq![c])
        }
    }
}

/// Every word is non-empty and holds no white space.
pub proof fn lemma_words_are_clean(s: Seq<char>)
    ensures
        forall|i: int| 0 <= i < words(s).len() ==> #[trigger] words(s)[i].len() > 0,
        forall|i: int, j: int|
            0 <= i < words(s).len() && 0 <= j < words(s)[i].len() ==> !is_white_space(#[trigger] words(s)[i][j]),
    decreases s.len(),
{
    if s.len() > 0 {
        let p = s.drop_last();
        lemma_words_are_clean(p);
        let w = words(p);
        let c = s.last();
        if !is_white_space(c) && s.len() >= 2 && !is_white_space(s[s.len() - 2]) {
            lemma_words_nonempty_when_ending_in_word(p);
            let last = w.last().push(c);
            assert forall|j: int| 0 <= j < last.len() implies !is_white_space(#[trigger] last[j]) by {
                if j < w.last().len() {
                    assert(w[w.len() - 1][j] == last[j]);
                }
            }
        }
    }
}

/// Text that ends in a non-white character has at least one word.
proof fn lemma_words_nonempty_when_ending_in_word(s: Seq<char>)
    requires
        s.len() > 0,
        !is_white_space(s.last()),
    ensures
        words(s).len() > 0,
    decreases s.len(),
{
    if s.len() >= 2 && !is_white_space(s[s.len() - 2]) {
        let p = s.drop_last();
        assert(p.last() == s[s.len() - 2]);
        lemma_words_nonempty_when_ending_in_word(p);
    }
}

/// Text without white space is one word, itself.
pub proof fn lemma_single_word(s: Seq<char>)
    requires
        s.len() > 0,
        forall|i: int| 0 <= i < s.len() ==> !is_white_space(#[trigger] s[i]),
    ensures
        words(s) == seq![s],
    decreases s.len(),
{
    if s.len() == 1 {
        assert(s.drop_last() =~= Seq::<char>::empty());
        assert(seq![s.last()] =~= s);
        assert(words(s.drop_last()) =~= Seq::<Seq<char>>::empty());
        assert(words(s) == Seq::<Seq<char>>::empty().push(seq![s.last()]));
        assert(words(s) =~~= seq![s]);
    } else {
        let p = s.drop_last();
        lemma_single_word(p);
        assert(p.push(s.last()) =~= s);
        assert(s[s.len() - 2] == p[p.len() - 1]);
        assert(words(p).last() == p);
        assert(words(p).last().push(s.last()) =~= s);
        assert(words(p).drop_last().push(words(p).last().push(s.last())) =~~= seq![s]);
    }
}

/// The tokens of a payload: the words of its text when it is valid UTF-8,
/// none otherwise.
pub open spec fn payload_tokens(data: Seq<u8>) -> Seq<Seq<char>> {
    if valid_utf8(data) { words(decode_utf8(data)) } else { Seq::empty() }
}

/// The character contents of a list of strings.
pub open spec fn token_texts(v: Seq<String>) -> Seq<Seq<char>> {
    v.map_values(|s: String| s@)
}

/// Reads bytes as UTF-8 text. Calls `std::str::from_utf8`, which accepts
/// exactly the valid UTF-8 sequences; claims that the text is their decoding.
#[verifier::external_body]
fn utf8_text(data: &[u8]) -> (res: Option<&str>)
    ensures
        res is Some <==> valid_utf8(data@),
        res matches Some(t) ==> t@ == decode_utf8(data@),
{
    std::str::from_utf8(data).ok()
}

pub(crate) fn white_space(c: char) -> (res: bool)
    ensures
        res == is_white_space(c),
{
    let u = c as u32;
    (0x9 <= u && u <= 0xD) || u == 0x20 || u == 0x85 || u == 0xA0 || u == 0x1680 || (0x2000 <= u && u <= 0x200A)
        || u == 0x2028 || u == 0x2029 || u == 0x202F || u == 0x205F || u == 0x3000
}

/// Splits text into its words.
pub fn split_words(text: &str) -> (res: Vec<String>)
    ensures
        token_texts(res@) == words(text@),
{
    let cs = chars_of(text);
    let ghost s = text@;
    let mut out: Vec<String> = Vec::new();
    let mut in_word = false;
    let mut start: usize = 0;
    let mut i: usize = 0;
    assert(s.take(0) =~= Seq::<char>::empty());
    while i < cs.len()
        invariant
            cs@ == s,
            s == text@,
            i <= s.len(),
            start <= i,
            !in_word ==> token_texts(out@) == words(s.take(i as int)),
            !in_word ==> (i == 0 || is_white_space(s[i - 1])),
            in_word ==> start < i,
            in_word ==> token_texts(out@) == words(s.take(start as int)),
            in_word ==> (start == 0 || is_white_space(s[start - 1])),
            in_word ==> forall|t: int| start <= t < i ==> !is_white_space(#[trigger] s[t]),
            in_word ==> words(s.take(i as int)) == token_texts(out@).push(s.subrange(start as int, i as int)),
        decreases s.len() - i,
    {
        let c = cs[i];
        let ws = white_space(c);
        proof {
            assert(s.take(i + 1).drop_last() =~= s.take(i as int));
            assert(s.take(i + 1).last() == c);
            if i >= 1 {
                assert(s.take(i + 1)[i - 1] == s[i - 1]);
            }
        }
        if ws {
            if in_word {
                let word = text.substring_char(start, i).to_owned();
                let ghost before = token_texts(out@);
                out.push(word);
                proof {
                    assert(token_texts(out@) =~= before.push(s.subrange(start as int, i as int)));
                }
                in_word = false;
            }
        } else {
            if !in_word {
                proof {
                    assert(s.subrange(i as int, i + 1) =~= seq![c]);
                }
                start = i;
                in_word = true;
            } else {
                proof {
                    let w = words(s.take(i as int));
                    assert(w.drop_last() =~= token_texts(out@));
                    assert(s.subrange(start as int, i + 1) =~= s.subrange(start as int, i as int).push(c));
                    assert(w.drop_last().push(w.last().push(c)) =~= token_texts(out@).push(s.subrange(start as int, i + 1)));
                }
            }
        }
        i = i + 1;
    }
    assert(s.take(i as int) =~= s);
    if in_word {
        let word = text.substring_char(start, i).to_owned();
        let ghost before = token_texts(out@);
        out.push(word);
        proof {
            assert(token_texts(out@) =~= before.push(s.subrange(start as int, i as int)));
        }
    }
    out
}

/// The tokens the organism expects to hear of a payload it speaks: the
/// words of the payload's text, or none when it is not UTF-8.
pub fn tokenize_payload(data: &[u8]) -> (res: Vec<String>)
    requires
        data@.len() <= 10_000_000,
    ensures
        token_texts(res@) == payload_tokens(data@),
{
    match utf8_text(data) {
        Some(text) => split_words(text),
        None => {
            let v: Vec<String> = Vec::new();
            assert(token_texts(v@) =~= Seq::<Seq<char>>::empty());
            v
        },
    }
}

/// What reached the ear on one turn of its loop.
#[derive(Debug, Clone, Copy, PartialEq, Eq, Structural)]
pub enum EarEvent {
    /// A mute command; `true` mutes, `false` unmutes.
    Mute(bool),
    /// A frame of MFCC features.
    Mfcc,
    /// A recognised speech token.
    SpeechToken,
    /// Any other sensory signal.
    Other,
    /// One of the ear's channels has closed.
    Closed,
}

/// What the ear does about an event.
#[derive(Debug, Clone, Copy, PartialEq, Eq, Structural)]
pub enum EarAction {
    /// Nothing.
    Ignore,
    /// Excite the auditory input node with the frame.
    StimulateAuditoryNode,
    /// Stop listening.
    Stop,
}

/// One turn of the ear: a mute command sets the mute flag; an MFCC frame
/// stimulates the auditory node unless the ear is muted; other signals do
/// nothing; a closed channel stops the ear.
pub fn ear_step(is_muted: bool, ev: EarEvent) -> (r: (bool, EarAction))
    ensures
        match ev {
            EarEvent::Mute(m) => r == (m, EarAction::Ignore),
            EarEvent::Mfcc => r == (is_muted, if is_muted { EarAction::Ignore } else { EarAction::StimulateAuditoryNode }),
            EarEvent::SpeechToken | EarEvent::Other => r == (is_muted, EarAction::Ignore),
            EarEvent::Closed => r == (is_muted, EarAction::Stop),
        },
{
    match ev {
        EarEvent::Mute(m) => (m, EarAction::Ignore),
        EarEvent::Mfcc => {
            if is_muted {
                (is_muted, EarAction::Ignore)
            } else {
                (is_muted, EarAction::StimulateAuditoryNode)
            }
        },
        EarEvent::SpeechToken | EarEvent::Other => (is_muted, EarAction::Ignore),
        EarEvent::Closed => (is_muted, EarAction::Stop),
    }
}

} // verus!
