use vstd::prelude::*;

verus! {

/// Relies on `String::push`: appends one character.
#[verifier::external_body]
pub(crate) fn push_char(s: &mut String, c: char)
    ensures
        final(s)@ == old(s)@.push(c),
{
    s.push(c);
}

/// The characters of `s`, in order.
pub fn chars_of(s: &str) -> (r: Vec<char>)
    ensures
        r@ == s@,
{
    let mut r: Vec<char> = Vec::new();
    for c in it: s.chars()
        invariant
            it.seq() == s@,
            r@ == it.seq().subrange(0, it.index() as int),
    {
        r.push(c);
    }
    r
}

/// A string holding the characters of `v`.
pub fn string_of(v: &Vec<char>) -> (r: String)
    ensures
        r@ == v@,
{
    let mut s = String::new();
    let mut i: usize = 0;
    while i < v.len()
        invariant
            i <= v.len(),
            s@ == v@.subrange(0, i as int),
        decreases v.len() - i,
    {
        push_char(&mut s, v[i]);
        i = i + 1;
    }
    assert(v@.subrange(0, v.len() as int) =~= v@);
    s
}

/// The characters that Unicode calls white space.
pub open spec fn is_space(c: char) -> bool {
    ||| c == ' '
    ||| ('\t' <= c && c <= '\r')
    ||| c == '\u{85}'
    ||| c == '\u{a0}'
    ||| c == '\u{1680}'
    ||| ('\u{2000}' <= c && c <= '\u{200a}')
    ||| c == '\u{2028}'
    ||| c == '\u{2029}'
    ||| c == '\u{202f}'
    ||| c == '\u{205f}'
    ||| c == '\u{3000}'
}

fn space(c: char) -> (r: bool)
    ensures
        r == is_space(c),
{
    c == ' ' || ('\t' <= c && c <= '\r') || c == '\u{85}' || c == '\u{a0}' || c == '\u{1680}'
        || ('\u{2000}' <= c && c <= '\u{200a}') || c == '\u{2028}' || c == '\u{2029}'
        || c == '\u{202f}' || c == '\u{205f}' || c == '\u{3000}'
}

/// ASCII letters in lower case; every other character as it is.
pub open spec fn lower(c: char) -> char {
    if 'A' <= c && c <= 'Z' {
        (((c as u8) + 32) as u8) as char
    } else {
        c
    }
}

pub open spec fn lower_seq(s: Seq<char>) -> Seq<char> {
    s.map_values(|c: char| lower(c))
}

pub(crate) fn lower_char(c: char) -> (r: char)
    ensures
        r == lower(c),
{
    if 'A' <= c && c <= 'Z' {
        ((c as u8) + 32) as char
    } else {
        c
    }
}

/// How many characters `s` starts with before its first white space.
pub open spec fn word_len(s: Seq<char>) -> nat
    decreases s.len(),
{
    if s.len() == 0 || is_space(s[0]) {
        0
    } else {
        1 + word_len(s.drop_first())
    }
}

/// The words of `s`: its maximal runs of characters that are not white space.
pub open spec fn words(s: Seq<char>) -> Seq<Seq<char>>
    decreases s.len(),
{
    if s.len() == 0 {
        seq![]
    } else if is_space(s[0]) {
        words(s.drop_first())
    } else {
        let n = 1 + word_len(s.drop_first());
        if n <= s.len() {
            seq![s.take(n as int)] + words(s.skip(n as int))
        } else {
            seq![s]
        }
    }
}

/// How many characters `s` starts with before its first `\n`.
pub open spec fn line_len(s: Seq<char>) -> nat
    decreases s.len(),
{
    if s.len() == 0 || s[0] == '\n' {
        0
    } else {
        1 + line_len(s.drop_first())
    }
}

/// The lines of `s`: split at each `\n`, with no empty line after a final `\n`.
pub open spec fn lines(s: Seq<char>) -> Seq<Seq<char>>
    decreases s.len(),
{
    if s.len() == 0 {
        seq![]
    } else {
        let n = line_len(s);
        if n < s.len() {
            seq![s.take(n as int)] + lines(s.skip(n + 1int))
        } else {
            seq![s]
        }
    }
}

/// The words of each line of `s`, case folded.
pub open spec fn line_words(s: Seq<char>) -> Seq<Seq<Seq<char>>> {
    lines(s).map_values(|l: Seq<char>| words(lower_seq(l)))
}

proof fn lemma_word_len(s: Seq<char>, k: int)
    requires
        0 <= k <= s.len(),
        forall|j: int| 0 <= j < k ==> !is_space(#[trigger] s[j]),
        k == s.len() || is_space(s[k]),
    ensures
        word_len(s) == k,
    decreases s.len(),
{
    if k > 0 {
        lemma_word_len(s.drop_first(), k - 1);
    }
}

proof fn lemma_line_len(s: Seq<char>, k: int)
    requires
        0 <= k <= s.len(),
        forall|j: int| 0 <= j < k ==> #[trigger] s[j] != '\n',
        k == s.len() || s[k] == '\n',
    ensures
        line_len(s) == k,
    decreases s.len(),
{
    if k > 0 {
        lemma_line_len(s.drop_first(), k - 1);
    }
}

/// The words of `s[from..to]`, case folded.
fn split_words(s: &Vec<char>, from: usize, to: usize) -> (r: Vec<Vec<char>>)
    requires
        from <= to <= s.len(),
    ensures
        r@.map_values(|w: Vec<char>| w@) == words(lower_seq(s@.subrange(from as int, to as int))),
{
    let ghost line = lower_seq(s@.subrange(from as int, to as int));
    let mut r: Vec<Vec<char>> = Vec::new();
    let mut i: usize = from;
    assert(line.skip(0) =~= line);
    while i < to
        invariant
            from <= i <= to <= s.len(),
            line == lower_seq(s@.subrange(from as int, to as int)),
            r@.map_values(|w: Vec<char>| w@) + words(line.skip(i - from)) == words(line),
        decreases to - i,
    {
        let ghost rest = line.skip(i - from);
        assert(rest[0] == lower(s@[i as int]));
        if space(s[i]) {
            assert(rest.drop_first() =~= line.skip(i + 1 - from));
            i = i + 1;
        } else {
            let mut w: Vec<char> = Vec::new();
            let start = i;
            while i < to && !space(s[i])
                invariant
                    from <= start <= i <= to <= s.len(),
                    line == lower_seq(s@.subrange(from as int, to as int)),
                    rest == line.skip(start - from),
                    w@ == rest.take(i - start),
                    forall|j: int| start <= j < i ==> !is_space(#[trigger] s@[j]),
                decreases to - i,
            {
                w.push(lower_char(s[i]));
                assert(w@ =~= rest.take(i + 1 - start));
                i = i + 1;
            }
            proof {
                assert forall|j: int| 0 <= j < i - start implies !is_space(#[trigger] rest[j]) by {
                    assert(rest[j] == lower(s@[start + j]));
                    assert(!is_space(s@[start + j]));
                }
                if i < to {
                    assert(rest[i - start] == lower(s@[i as int]));
                }
                lemma_word_len(rest, i - start);
                assert(rest.skip(i - start) =~= line.skip(i - from));
                let before = r@.map_values(|w: Vec<char>| w@);
                assert(words(rest) == seq![rest.take(i - start)] + words(line.skip(i - from)));
                let ghost r2 = r@.push(w);
                assert(r2.map_values(|w: Vec<char>| w@) =~= before.push(w@));
                assert(before.push(w@) + words(line.skip(i - from)) =~= before + (seq![w@] + words(line.skip(i - from))));
            }
            r.push(w);
        }
    }
    assert(line.skip(to - from) =~= Seq::<char>::empty());
    assert(r@.map_values(|w: Vec<char>| w@) =~= r@.map_values(|w: Vec<char>| w@) + words(line.skip(to - from)));
    r
}

/// The words of each line of `s`, case folded.
pub fn split_line_words(s: &Vec<char>) -> (r: Vec<Vec<Vec<char>>>)
    ensures
        r@.len() == line_words(s@).len(),
        forall|i: int| 0 <= i < r@.len() ==> (#[trigger] r@[i])@.map_values(|w: Vec<char>| w@) == line_words(s@)[i],
{
    let mut r: Vec<Vec<Vec<char>>> = Vec::new();
    let mut i: usize = 0;
    let ghost all = lines(s@);
    let ghost mut done: Seq<Seq<char>> = seq![];
    assert(s@.skip(0) =~= s@);
    while i < s.len()
        invariant
            i <= s.len(),
            all == lines(s@),
            done + lines(s@.skip(i as int)) == all,
            r@.len() == done.len(),
            forall|j: int| 0 <= j < r@.len() ==> (#[trigger] r@[j])@.map_values(|w: Vec<char>| w@) == words(lower_seq(done[j])),
        decreases s.len() - i,
    {
        let ghost rest = s@.skip(i as int);
        let start = i;
        while i < s.len() && s[i] != '\n'
            invariant
                start <= i <= s.len(),
                rest == s@.skip(start as int),
                forall|j: int| start <= j < i ==> #[trigger] s@[j] != '\n',
            decreases s.len() - i,
        {
            i = i + 1;
        }
        proof {
            assert forall|j: int| 0 <= j < i - start implies #[trigger] rest[j] != '\n' by {
                assert(rest[j] == s@[start + j]);
            }
            if i < s.len() {
                assert(rest[i - start] == s@[i as int]);
            }
            lemma_line_len(rest, i - start);
        }
        let w = split_words(s, start, i);
        proof {
            let ln = s@.subrange(start as int, i as int);
            assert(rest.take(i - start) =~= ln);
            if i < s.len() {
                assert(rest.skip(i - start + 1) =~= s@.skip(i + 1));
                assert(lines(rest) == seq![ln] + lines(s@.skip(i + 1)));
                assert(done.push(ln) + lines(s@.skip(i + 1)) =~= done + lines(rest));
            } else {
                assert(rest =~= ln);
                assert(s@.skip(i as int) =~= Seq::<char>::empty());
                assert(lines(rest) == seq![ln]);
                assert(done.push(ln) + lines(s@.skip(i as int)) =~= done + lines(rest));
            }
            done = done.push(ln);
        }
        r.push(w);
        if i < s.len() {
            i = i + 1;
        }
    }
    proof {
        assert(s@.skip(i as int) =~= Seq::<char>::empty());
        assert(done =~= all);
    }
    r
}

/// A line without `\n`, then a `\n`, then more text: the line comes first.
pub proof fn lemma_lines_cons(x: Seq<char>, rest: Seq<char>)
    requires
        forall|i: int| 0 <= i < x.len() ==> #[trigger] x[i] != '\n',
    ensures
        lines(x + seq!['\n'] + rest) == seq![x] + lines(rest),
{
    let s = x + seq!['\n'] + rest;
    assert forall|j: int| 0 <= j < x.len() implies #[trigger] s[j] != '\n' by {
        assert(s[j] == x[j]);
    }
    assert(s[x.len() as int] == '\n');
    lemma_line_len(s, x.len() as int);
    assert(s.take(x.len() as int) =~= x);
    assert(s.skip(x.len() + 1int) =~= rest);
}

/// A word and a space before more text: the word comes first.
pub proof fn lemma_words_cons(x: Seq<char>, rest: Seq<char>)
    requires
        x.len() > 0,
        forall|i: int| 0 <= i < x.len() ==> !is_space(#[trigger] x[i]),
    ensures
        words(x + seq![' '] + rest) == seq![x] + words(rest),
{
    let s = x + seq![' '] + rest;
    assert forall|j: int| 0 <= j < x.len() implies !is_space(#[trigger] s[j]) by {
        assert(s[j] == x[j]);
    }
    assert(is_space(s[x.len() as int]));
    lemma_word_len(s, x.len() as int);
    lemma_word_len(s.drop_first(), x.len() - 1);
    assert forall|j: int| 0 <= j < x.len() - 1 implies !is_space(#[trigger] s.drop_first()[j]) by {
        assert(s.drop_first()[j] == s[j + 1]);
    }
    assert(s.drop_first()[x.len() - 1] == s[x.len() as int]);
    assert(s.take(x.len() as int) =~= x);
    let tail = s.skip(x.len() as int);
    assert(tail =~= seq![' '] + rest);
    assert(tail.drop_first() =~= rest);
    assert(is_space(tail[0]));
    assert(words(tail) == words(rest));
    assert(!is_space(s[0]));
    assert(word_len(s.drop_first()) == x.len() - 1);
    assert(words(s) == seq![s.take(x.len() as int)] + words(s.skip(x.len() as int)));
}

/// A single word.
pub proof fn lemma_words_single(x: Seq<char>)
    requires
        x.len() > 0,
        forall|i: int| 0 <= i < x.len() ==> !is_space(#[trigger] x[i]),
    ensures
        words(x) == seq![x],
{
    lemma_word_len(x.drop_first(), x.len() - 1);
    assert forall|j: int| 0 <= j < x.len() - 1 implies !is_space(#[trigger] x.drop_first()[j]) by {
        assert(x.drop_first()[j] == x[j + 1]);
    }
    assert(x.take(x.len() as int) =~= x);
    assert(x.skip(x.len() as int) =~= Seq::<char>::empty());
    assert(words(Seq::<char>::empty()) == Seq::<Seq<char>>::empty());
    assert(seq![x] + Seq::<Seq<char>>::empty() =~= seq![x]);
}

/// Text without ASCII capitals is its own case folding.
pub proof fn lemma_lower_same(x: Seq<char>)
    requires
        forall|i: int| 0 <= i < x.len() ==> !('A' <= #[trigger] x[i] && x[i] <= 'Z'),
    ensures
        lower_seq(x) == x,
{
    assert(lower_seq(x) =~= x);
}

/// A line without words, or whose first word starts with `#`.
pub open spec fn is_blank_or_comment(ws: Seq<Seq<char>>) -> bool {
    ws.len() == 0 || (ws[0].len() > 0 && ws[0][0] == '#')
}

/// The words of a line, as sequences.
pub open spec fn words_view(ws: Vec<Vec<char>>) -> Seq<Seq<char>> {
    ws@.map_values(|w: Vec<char>| w@)
}

/// The words of each line, as sequences.
pub open spec fn lines_view(ls: Seq<Vec<Vec<char>>>) -> Seq<Seq<Seq<char>>> {
    ls.map_values(|l: Vec<Vec<char>>| words_view(l))
}

} // verus!
