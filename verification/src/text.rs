//! Characters, white space, and splitting text into words.
use vstd::prelude::*;
use vstd::hash_set::StringHashSet;

verus! {

/// The Unicode `White_Space` property (PropList.txt), which `char::is_whitespace` tests.
pub open spec fn is_white_space(c: char) -> bool {
    let v = c as u32;
    ||| 0x09 <= v <= 0x0D
    ||| v == 0x20
    ||| v == 0x85
    ||| v == 0xA0
    ||| v == 0x1680
    ||| 0x2000 <= v <= 0x200A
    ||| v == 0x2028
    ||| v == 0x2029
    ||| v == 0x202F
    ||| v == 0x205F
    ||| v == 0x3000
}

/// The code points of the Unicode `White_Space` property, one by one.
pub open spec fn white_space_code_points() -> Seq<u32> {
    seq![
        0x09u32, 0x0A, 0x0B, 0x0C, 0x0D, 0x20, 0x85, 0xA0, 0x1680, 0x2000, 0x2001, 0x2002,
        0x2003, 0x2004, 0x2005, 0x2006, 0x2007, 0x2008, 0x2009, 0x200A, 0x2028, 0x2029, 0x202F,
        0x205F, 0x3000,
    ]
}

/// A character is white space exactly when its code point is one of the
/// listed `White_Space` code points; every other character, such as the
/// ideographic full stop U+3002, is not.
pub proof fn lemma_white_space_code_points(c: char)
    ensures
        is_white_space(c) <==> white_space_code_points().contains(c as u32),
{
    let l = white_space_code_points();
    let v = c as u32;
    assert(l.len() == 25);
    if is_white_space(c) {
        let k: int = if 0x09 <= v <= 0x0D {
            v - 0x09
        } else if v == 0x20 {
            5
        } else if v == 0x85 {
            6
        } else if v == 0xA0 {
            7
        } else if v == 0x1680 {
            8
        } else if 0x2000 <= v <= 0x200A {
            9 + (v - 0x2000)
        } else if v == 0x2028 {
            20
        } else if v == 0x2029 {
            21
        } else if v == 0x202F {
            22
        } else if v == 0x205F {
            23
        } else {
            24
        };
        assert(l[k] == v);
    }
    if l.contains(v) {
        let k = choose|k: int| 0 <= k < l.len() && l[k] == v;
        assert(0 <= k < 25);
    }
}

/// Whether `c` is white space, as `char::is_whitespace` answers.
pub fn is_whitespace(c: char) -> (r: bool)
    ensures
        r == is_white_space(c),
        r == white_space_code_points().contains(c as u32),
{
    proof {
        lemma_white_space_code_points(c);
    }
    let v = c as u32;
    (0x09 <= v && v <= 0x0D) || v == 0x20 || v == 0x85 || v == 0xA0 || v == 0x1680 || (0x2000 <= v
        && v <= 0x200A) || v == 0x2028 || v == 0x2029 || v == 0x202F || v == 0x205F || v == 0x3000
}

/// Appends one character to a string.
#[verifier::external_body]
fn push_char(s: &mut String, c: char)
    ensures
        final(s)@ == old(s)@.push(c),
{
    s.push(c);
}

/// The characters of `s`, in order.
pub fn chars_of(s: &str) -> (r: Vec<char>)
    ensures
        r@ == s@,
{
    let mut r: Vec<char> = Vec::new();
    for c in it: s.chars()
        invariant
            r@ == it.seq().take(it.index() as int),
    {
        r.push(c);
    }
    r
}


/// Whether `c` is kept when white space is removed.
pub open spec fn not_white_space(c: char) -> bool {
    !is_white_space(c)
}

/// `text` without its white-space characters.
pub open spec fn without_white_space(text: Seq<char>) -> Seq<char> {
    text.filter(|c: char| not_white_space(c))
}

/// `text` with every white-space character removed, as the request text is before it is cut.
pub fn remove_whitespace(text: &str) -> (r: String)
    ensures
        r@ == without_white_space(text@),
        r@ == text@.filter(|c: char| !white_space_code_points().contains(c as u32)),
{
    proof {
        lemma_removed_are_code_points(text@);
    }
    let chars = chars_of(text);
    let mut r = String::new();
    let mut i: usize = 0;
    while i < chars.len()
        invariant
            i <= chars.len(),
            chars@ == text@,
            r@ == text@.take(i as int).filter(|c: char| not_white_space(c)),
        decreases chars.len() - i,
    {
        let c = chars[i];
        proof {
            assert(text@.take(i as int).push(c) =~= text@.take(i + 1));
            text@.take(i as int).lemma_filter_push(c, |c: char| not_white_space(c));
        }
        if !is_whitespace(c) {
            push_char(&mut r, c);
        }
        i = i + 1;
    }
    assert(text@.take(chars.len() as int) =~= text@);
    r
}

/// Words of `s` that end before its last character, and the word still open there.
pub open spec fn scan_words(s: Seq<char>) -> (Seq<Seq<char>>, Seq<char>)
    decreases s.len(),
{
    if s.len() == 0 {
        (Seq::empty(), Seq::empty())
    } else {
        let (done, open) = scan_words(s.drop_last());
        if is_white_space(s.last()) {
            if open.len() > 0 {
                (done.push(open), Seq::empty())
            } else {
                (done, open)
            }
        } else {
            (done, open.push(s.last()))
        }
    }
}

/// The maximal runs of non-white-space characters of `s`, in order: what
/// `str::split_whitespace` yields.
pub open spec fn split_whitespace(s: Seq<char>) -> Seq<Seq<char>> {
    let (done, open) = scan_words(s);
    if open.len() > 0 {
        done.push(open)
    } else {
        done
    }
}

/// No white space is left once it is removed.
pub proof fn lemma_no_white_space_left(text: Seq<char>)
    ensures
        forall|i: int|
            0 <= i < without_white_space(text).len() ==> !is_white_space(
                #[trigger] without_white_space(text)[i],
            ),
{
    assert forall|i: int| 0 <= i < without_white_space(text).len() implies !is_white_space(
        #[trigger] without_white_space(text)[i],
    ) by {
        text.lemma_filter_pred(|c: char| not_white_space(c), i);
    }
}

/// Removing white space twice removes no more than once.
pub proof fn lemma_remove_white_space_idempotent(text: Seq<char>)
    ensures
        without_white_space(without_white_space(text)) == without_white_space(text),
    decreases text.len(),
{
    if text.len() > 0 {
        let prev = text.drop_last();
        let c = text.last();
        lemma_remove_white_space_idempotent(prev);
        assert(prev.push(c) =~= text);
        prev.lemma_filter_push(c, |c: char| not_white_space(c));
        without_white_space(prev).lemma_filter_push(c, |c: char| not_white_space(c));
    } else {
        reveal(Seq::filter);
    }
}

/// The words of a text are not empty and hold no white space.
pub proof fn lemma_split_words(s: Seq<char>)
    ensures
        forall|k: int|
            0 <= k < split_whitespace(s).len() ==> (#[trigger] split_whitespace(s)[k]).len() > 0
                && forall|i: int|
                0 <= i < split_whitespace(s)[k].len() ==> !is_white_space(
                    #[trigger] split_whitespace(s)[k][i],
                ),
{
    lemma_scan_words(s);
    let (done, open) = scan_words(s);
    if open.len() > 0 {
        let now = done.push(open);
        assert forall|k: int| 0 <= k < now.len() implies (#[trigger] now[k]).len() > 0 && forall|
            i: int,
        | 0 <= i < now[k].len() ==> !is_white_space(#[trigger] now[k][i]) by {
            if k < done.len() {
                assert(now[k] == done[k]);
            } else {
                assert(now[k] == open);
            }
        }
    }
}

/// The words already ended, and the open word, are not empty (the open word
/// may be) and hold no white space.
proof fn lemma_scan_words(s: Seq<char>)
    ensures
        forall|k: int|
            0 <= k < scan_words(s).0.len() ==> (#[trigger] scan_words(s).0[k]).len() > 0 && forall|
                i: int,
            | 0 <= i < scan_words(s).0[k].len() ==> !is_white_space(#[trigger] scan_words(s).0[k][i]),
        forall|i: int| 0 <= i < scan_words(s).1.len() ==> !is_white_space(#[trigger] scan_words(s).1[i]),
    decreases s.len(),
{
    if s.len() > 0 {
        let prev = s.drop_last();
        lemma_scan_words(prev);
        let (done, open) = scan_words(prev);
        let c = s.last();
        if is_white_space(c) {
            if open.len() > 0 {
                let now = done.push(open);
                assert forall|k: int| 0 <= k < now.len() implies (#[trigger] now[k]).len() > 0 && forall|
                    i: int,
                | 0 <= i < now[k].len() ==> !is_white_space(#[trigger] now[k][i]) by {
                    if k < done.len() {
                        assert(now[k] == done[k]);
                    } else {
                        assert(now[k] == open);
                    }
                }
            }
        } else {
            let now = open.push(c);
            assert forall|i: int| 0 <= i < now.len() implies !is_white_space(#[trigger] now[i]) by {
                if i < open.len() {
                    assert(now[i] == open[i]);
                }
            }
        }
    }
}

/// Removing white space keeps exactly the characters that are not listed
/// `White_Space` code points, in their order.
pub proof fn lemma_removed_are_code_points(text: Seq<char>)
    ensures
        without_white_space(text) == text.filter(
            |c: char| !white_space_code_points().contains(c as u32),
        ),
    decreases text.len(),
{
    if text.len() > 0 {
        let prev = text.drop_last();
        let c = text.last();
        lemma_removed_are_code_points(prev);
        lemma_white_space_code_points(c);
        assert(prev.push(c) =~= text);
        prev.lemma_filter_push(c, |c: char| not_white_space(c));
        prev.lemma_filter_push(c, |c: char| !white_space_code_points().contains(c as u32));
    } else {
        reveal(Seq::filter);
    }
}

/// Removing white space from a text with one more character: a white-space
/// character adds nothing, any other character is kept at the end.
pub proof fn lemma_remove_white_space_push(text: Seq<char>, c: char)
    ensures
        without_white_space(text.push(c)) == if white_space_code_points().contains(c as u32) {
            without_white_space(text)
        } else {
            without_white_space(text).push(c)
        },
        without_white_space(Seq::empty()) == Seq::<char>::empty(),
{
    lemma_white_space_code_points(c);
    text.lemma_filter_push(c, |c: char| not_white_space(c));
    reveal(Seq::filter);
}

/// The words of a text with one more character. None for an empty text; a
/// white-space character adds nothing; any other character starts a new word
/// after white space or at the start, and otherwise ends the last word.
pub proof fn lemma_split_push(s: Seq<char>, c: char)
    ensures
        split_whitespace(Seq::empty()) == Seq::<Seq<char>>::empty(),
        white_space_code_points().contains(c as u32) ==> split_whitespace(s.push(c))
            == split_whitespace(s),
        !white_space_code_points().contains(c as u32) && (s.len() == 0 || white_space_code_points().contains(
            s.last() as u32,
        )) ==> split_whitespace(s.push(c)) == split_whitespace(s).push(seq![c]),
        !white_space_code_points().contains(c as u32) && s.len() > 0
            && !white_space_code_points().contains(s.last() as u32) ==> split_whitespace(s).len() > 0
            && split_whitespace(s.push(c)) == split_whitespace(s).drop_last().push(
            split_whitespace(s).last().push(c),
        ),
{
    lemma_white_space_code_points(c);
    assert(s.push(c).drop_last() =~= s);
    lemma_open_word(s);
    if s.len() > 0 {
        lemma_white_space_code_points(s.last());
    }
    let (done, open) = scan_words(s);
    if !is_white_space(c) && open.len() > 0 {
        assert(split_whitespace(s) == done.push(open));
        assert(done.push(open).drop_last() =~= done);
    }
    if !is_white_space(c) && open.len() == 0 {
        assert(open.push(c) =~= seq![c]);
        assert(split_whitespace(s) == done);
        assert(scan_words(s.push(c)) == (done, open.push(c)));
    }
}

/// The open word of a text is empty exactly when the text is empty or ends in
/// white space.
proof fn lemma_open_word(s: Seq<char>)
    ensures
        (scan_words(s).1.len() == 0) <==> (s.len() == 0 || is_white_space(s.last())),
    decreases s.len(),
{
    if s.len() > 0 {
        lemma_open_word(s.drop_last());
    }
}

/// The words of a text, one after another, are its characters without the
/// white space: no character that is not white space is lost or separates words.
pub proof fn lemma_split_joined(s: Seq<char>)
    ensures
        crate::segment::joined(split_whitespace(s)) == without_white_space(s),
    decreases s.len(),
{
    if s.len() == 0 {
        lemma_remove_white_space_push(s, 'a');
    } else {
        let prev = s.drop_last();
        let c = s.last();
        assert(prev.push(c) =~= s);
        lemma_split_joined(prev);
        lemma_split_push(prev, c);
        lemma_remove_white_space_push(prev, c);
        let w = split_whitespace(prev);
        if !white_space_code_points().contains(c as u32) {
            if prev.len() == 0 || white_space_code_points().contains(prev.last() as u32) {
                assert(w.push(seq![c]).drop_last() =~= w);
                assert(seq![c] =~= Seq::<char>::empty().push(c));
            } else {
                let last = w.last();
                assert(w =~= w.drop_last().push(last));
                assert(w.drop_last().push(last.push(c)).drop_last() =~= w.drop_last());
                assert(w.drop_last().push(last).drop_last() =~= w.drop_last());
                assert(crate::segment::joined(w) == crate::segment::joined(w.drop_last()) + last);
                assert(crate::segment::joined(w.drop_last()) + last.push(c) =~= (
                crate::segment::joined(w.drop_last()) + last).push(c));
            }
        }
    }
}

/// What `String::from_utf8_lossy` gives for `bytes`.
pub uninterp spec fn utf8_lossy(bytes: Seq<u8>) -> Seq<char>;

/// `String::from_utf8_lossy`: decodes `bytes`, replacing each invalid sequence
/// with U+FFFD. The contract names the result and states that bytes which are
/// valid UTF-8 are decoded as such; the replacement rule is not written out.
#[verifier::external_body]
fn decode_lossy(bytes: &[u8]) -> (r: String)
    ensures
        r@ == utf8_lossy(bytes@),
        vstd::utf8::valid_utf8(bytes@) ==> r@ == vstd::utf8::decode_utf8(bytes@),
{
    String::from_utf8_lossy(bytes).into_owned()
}

/// A string holding `chars`.
pub fn string_of(chars: &Vec<char>) -> (r: String)
    ensures
        r@ == chars@,
{
    let mut r = String::new();
    let mut i: usize = 0;
    while i < chars.len()
        invariant
            i <= chars.len(),
            r@ == chars@.take(i as int),
        decreases chars.len() - i,
    {
        push_char(&mut r, chars[i]);
        assert(chars@.take(i as int).push(chars@[i as int]) =~= chars@.take(i + 1));
        i = i + 1;
    }
    assert(chars@.take(chars.len() as int) =~= chars@);
    r
}

/// The stop-word list in `text`: its white-space separated words.
pub fn stop_words_of(text: &str) -> (r: StringHashSet)
    ensures
        r@ == split_whitespace(text@).to_set(),
{
    let chars = chars_of(text);
    let mut r = StringHashSet::new();
    let mut open: Vec<char> = Vec::new();
    let mut i: usize = 0;
    let ghost mut done: Seq<Seq<char>> = Seq::empty();
    while i < chars.len()
        invariant
            i <= chars.len(),
            chars@ == text@,
            scan_words(text@.take(i as int)) == (done, open@),
            r@ == done.to_set(),
        decreases chars.len() - i,
    {
        let c = chars[i];
        assert(text@.take(i + 1).drop_last() =~= text@.take(i as int));
        if is_whitespace(c) {
            if open.len() > 0 {
                let w = string_of(&open);
                r.insert(w);
                proof {
                    lemma_push_to_set(done, open@);
                    done = done.push(open@);
                }
                open = Vec::new();
            }
        } else {
            open.push(c);
        }
        i = i + 1;
    }
    assert(text@.take(chars.len() as int) =~= text@);
    if open.len() > 0 {
        let w = string_of(&open);
        r.insert(w);
        proof {
            lemma_push_to_set(done, open@);
        }
    }
    r
}

/// Pushing onto a sequence inserts into its set of elements.
proof fn lemma_push_to_set<A>(s: Seq<A>, x: A)
    ensures
        s.push(x).to_set() == s.to_set().insert(x),
{
    assert forall|y: A| #[trigger] s.push(x).to_set().contains(y) == s.to_set().insert(x).contains(
        y,
    ) by {
        if s.push(x).contains(y) {
            let k = choose|k: int| 0 <= k < s.push(x).len() && s.push(x)[k] == y;
            if k < s.len() {
                assert(s[k] == y);
            }
        }
        if s.contains(y) {
            let k = choose|k: int| 0 <= k < s.len() && s[k] == y;
            assert(s.push(x)[k] == y);
        }
        if y == x {
            assert(s.push(x)[s.len() as int] == x);
        }
    }
    assert(s.push(x).to_set() =~= s.to_set().insert(x));
}

/// The stop-word list held in `bytes`, the contents of the stop-word file:
/// the white-space separated words of the text that the bytes decode to.
pub fn stop_words(bytes: &[u8]) -> (r: StringHashSet)
    ensures
        r@ == split_whitespace(utf8_lossy(bytes@)).to_set(),
{
    let text = decode_lossy(bytes);
    stop_words_of(text.as_str())
}

} // verus!
