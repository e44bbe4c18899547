use vstd::prelude::*;

verus! {

/// The line break that separates lines.
pub open spec fn nl() -> char {
    '\n'
}

/// Splits `s` at every line break; the empty text has no lines at all.
pub open spec fn split_lines(s: Seq<char>) -> Seq<Seq<char>> {
    if s.len() == 0 {
        Seq::empty()
    } else {
        split_pieces(s)
    }
}

/// The pieces of `s` between line breaks: one more than it has line breaks.
pub open spec fn split_pieces(s: Seq<char>) -> Seq<Seq<char>>
    decreases s.len(),
{
    if s.len() == 0 {
        seq![Seq::empty()]
    } else {
        let p = split_pieces(s.drop_last());
        if s.last() == nl() {
            p.push(Seq::empty())
        } else {
            p.update(p.len() - 1, p.last().push(s.last()))
        }
    }
}

/// The lines of `ls` joined by single line breaks.
pub open spec fn join_lines(ls: Seq<Seq<char>>) -> Seq<char>
    decreases ls.len(),
{
    if ls.len() == 0 {
        Seq::empty()
    } else if ls.len() == 1 {
        ls[0]
    } else {
        join_lines(ls.drop_last()) + seq![nl()] + ls.last()
    }
}

pub open spec fn has_no_break(l: Seq<char>) -> bool {
    forall|k: int| 0 <= k < l.len() ==> l[k] != nl()
}

pub proof fn lemma_split_pieces_shape(s: Seq<char>)
    ensures
        split_pieces(s).len() >= 1,
        forall|k: int| 0 <= k < split_pieces(s).len() ==> has_no_break(#[trigger] split_pieces(s)[k]),
    decreases s.len(),
{
    if s.len() > 0 {
        lemma_split_pieces_shape(s.drop_last());
    }
}

proof fn lemma_join_push_char(ls: Seq<Seq<char>>, c: char)
    requires
        ls.len() >= 1,
    ensures
        join_lines(ls.update(ls.len() - 1, ls.last().push(c))) == join_lines(ls).push(c),
{
    let u = ls.update(ls.len() - 1, ls.last().push(c));
    if ls.len() > 1 {
        assert(u.drop_last() =~= ls.drop_last());
        assert(join_lines(u) =~= join_lines(ls).push(c));
    }
}

proof fn lemma_join_split_pieces(s: Seq<char>)
    ensures
        join_lines(split_pieces(s)) == s,
    decreases s.len(),
{
    if s.len() > 0 {
        let p = split_pieces(s.drop_last());
        lemma_join_split_pieces(s.drop_last());
        lemma_split_pieces_shape(s.drop_last());
        if s.last() == nl() {
            assert(p.push(Seq::empty()).drop_last() =~= p);
            assert(join_lines(p.push(Seq::empty())) =~= s);
        } else {
            lemma_join_push_char(p, s.last());
            assert(s.drop_last().push(s.last()) =~= s);
        }
    }
}

/// Joining the lines of a text gives the text back.
pub proof fn lemma_join_split(s: Seq<char>)
    ensures
        join_lines(split_lines(s)) == s,
        forall|k: int| 0 <= k < split_lines(s).len() ==> has_no_break(#[trigger] split_lines(s)[k]),
{
    lemma_join_split_pieces(s);
    lemma_split_pieces_shape(s);
}

proof fn lemma_split_pieces_extend(s: Seq<char>, l: Seq<char>)
    requires
        has_no_break(l),
    ensures
        split_pieces(s + l) == split_pieces(s).update(
            split_pieces(s).len() - 1,
            split_pieces(s).last() + l,
        ),
    decreases l.len(),
{
    lemma_split_pieces_shape(s);
    let p = split_pieces(s);
    if l.len() == 0 {
        assert(s + l =~= s);
        assert(p.last() + l =~= p.last());
        assert(p.update(p.len() - 1, p.last()) =~= p);
    } else {
        let d = l.drop_last();
        lemma_split_pieces_extend(s, d);
        assert((s + l).drop_last() =~= s + d);
        assert((p.last() + d).push(l.last()) =~= p.last() + l);
        assert(split_pieces(s + l) =~= p.update(p.len() - 1, p.last() + l));
    }
}

/// Splitting the lines of a text joined from lines without breaks gives those lines back,
/// unless they are a single empty line (which joins to the empty text, which has none).
pub proof fn lemma_split_join(ls: Seq<Seq<char>>)
    requires
        forall|k: int| 0 <= k < ls.len() ==> has_no_break(#[trigger] ls[k]),
        !(ls.len() == 1 && ls[0].len() == 0),
    ensures
        split_lines(join_lines(ls)) == ls,
    decreases ls.len(),
{
    if ls.len() == 0 {
    } else {
        lemma_split_pieces_join(ls);
        if ls.len() >= 2 {
            assert(join_lines(ls).len() > 0);
        }
    }
}

proof fn lemma_split_pieces_join(ls: Seq<Seq<char>>)
    requires
        forall|k: int| 0 <= k < ls.len() ==> has_no_break(#[trigger] ls[k]),
        ls.len() >= 1,
    ensures
        split_pieces(join_lines(ls)) == ls,
    decreases ls.len(),
{
    let e = Seq::<char>::empty();
    if ls.len() == 1 {
        lemma_split_pieces_extend(e, ls[0]);
        assert(e + ls[0] =~= ls[0]);
        assert(seq![e].update(0, e + ls[0]) =~= ls);
    } else {
        let dl = ls.drop_last();
        lemma_split_pieces_join(dl);
        let j = join_lines(dl) + seq![nl()];
        assert(j.drop_last() =~= join_lines(dl));
        assert(split_pieces(j) == dl.push(e));
        lemma_split_pieces_extend(j, ls.last());
        assert(e + ls.last() =~= ls.last());
        assert(dl.push(e).update(dl.len() as int, ls.last()) =~= ls);
    }
}

/// The characters that Rust's `char::is_whitespace` accepts (Unicode `White_Space`).
pub open spec fn is_space(c: char) -> bool {
    ('\u{9}' <= c && c <= '\u{d}') || c == ' ' || c == '\u{85}' || c == '\u{a0}' || c == '\u{1680}'
        || ('\u{2000}' <= c && c <= '\u{200a}') || c == '\u{2028}' || c == '\u{2029}' || c
        == '\u{202f}' || c == '\u{205f}' || c == '\u{3000}'
}

pub fn char_is_space(c: char) -> (r: bool)
    ensures
        r == is_space(c),
{
    ('\u{9}' <= c && c <= '\u{d}') || c == ' ' || c == '\u{85}' || c == '\u{a0}' || c == '\u{1680}'
        || ('\u{2000}' <= c && c <= '\u{200a}') || c == '\u{2028}' || c == '\u{2029}' || c
        == '\u{202f}' || c == '\u{205f}' || c == '\u{3000}'
}

/// `s` without its trailing whitespace.
pub open spec fn trim_end(s: Seq<char>) -> Seq<char>
    decreases s.len(),
{
    if s.len() > 0 && is_space(s.last()) {
        trim_end(s.drop_last())
    } else {
        s
    }
}

/// `s` without its leading whitespace.
pub open spec fn trim_start(s: Seq<char>) -> Seq<char>
    decreases s.len(),
{
    if s.len() > 0 && is_space(s[0]) {
        trim_start(s.drop_first())
    } else {
        s
    }
}

/// The characters of `s`.
pub fn chars_of(s: &str) -> (r: Vec<char>)
    ensures
        r@ == s@,
{
    let n = s.unicode_len();
    let mut r: Vec<char> = Vec::new();
    let mut i: usize = 0;
    while i < n
        invariant
            n == s@.len(),
            i <= n,
            r@ == s@.subrange(0, i as int),
        decreases n - i,
    {
        r.push(s.get_char(i));
        proof {
            assert(r@ =~= s@.subrange(0, i + 1));
        }
        i = i + 1;
    }
    proof {
        assert(r@ =~= s@);
    }
    r
}

/// The lines of `s`, as `split_lines` gives them.
pub fn split_preserve_trailing_newline(s: &str) -> (r: Vec<String>)
    ensures
        r.deep_view() == split_lines(s@),
{
    let n = s.unicode_len();
    let mut r: Vec<String> = Vec::new();
    if n == 0 {
        proof {
            assert(r.deep_view() =~= split_lines(s@));
        }
        return r;
    }
    let mut start: usize = 0;
    let mut i: usize = 0;
    proof {
        assert(s@.subrange(0, 0) =~= Seq::<char>::empty());
        assert(r.deep_view().push(s@.subrange(0, 0)) =~~= seq![Seq::<char>::empty()]);
    }
    while i < n
        invariant
            n == s@.len(),
            start <= i <= n,
            r.deep_view().push(s@.subrange(start as int, i as int)) == split_pieces(
                s@.subrange(0, i as int),
            ),
        decreases n - i,
    {
        let c = s.get_char(i);
        proof {
            assert(s@.subrange(0, i + 1).drop_last() =~= s@.subrange(0, i as int));
            assert(s@.subrange(0, i + 1).last() == c);
        }
        if c == '\n' {
            let piece = s.substring_char(start, i);
            let ghost old_r = r.deep_view();
            r.push(piece.to_owned());
            proof {
                assert(r.deep_view() =~= old_r.push(piece@));
                assert(s@.subrange(i + 1, i + 1) =~= Seq::<char>::empty());
            }
            start = i + 1;
        } else {
            proof {
                let p = r.deep_view().push(s@.subrange(start as int, i as int));
                assert(s@.subrange(start as int, i as int).push(c) =~= s@.subrange(start as int, i + 1));
                assert(p.update(p.len() - 1, p.last().push(c)) =~~= r.deep_view().push(
                    s@.subrange(start as int, i + 1),
                ));
            }
        }
        i = i + 1;
    }
    let piece = s.substring_char(start, n);
    let ghost old_r = r.deep_view();
    r.push(piece.to_owned());
    proof {
        assert(r.deep_view() =~= old_r.push(piece@));
        assert(s@.subrange(0, n as int) =~= s@);
    }
    r
}

/// The lines joined by single line breaks.
pub fn join_with_breaks(ls: &Vec<String>) -> (r: String)
    ensures
        r@ == join_lines(ls.deep_view()),
{
    let mut r = String::new();
    let mut i: usize = 0;
    while i < ls.len()
        invariant
            i <= ls.len(),
            r@ == join_lines(ls.deep_view().subrange(0, i as int)),
        decreases ls.len() - i,
    {
        let ghost prev = ls.deep_view().subrange(0, i as int);
        if i > 0 {
            r.append("\n");
        }
        r.append(ls[i].as_str());
        proof {
            reveal_strlit("\n");
            let next = ls.deep_view().subrange(0, i + 1);
            assert(next.drop_last() =~= prev);
            if i == 0 {
                assert(join_lines(next) =~= ls[0]@);
            }
            assert(r@ =~= join_lines(next));
        }
        i = i + 1;
    }
    proof {
        assert(ls.deep_view().subrange(0, ls.len() as int) =~= ls.deep_view());
    }
    r
}

} // verus!
