use vstd::prelude::*;

use crate::agents_md::{
    doc_well_formed, find_section, lemma_upsert_then_find, lemma_upsert_well_formed, parse_text,
    render_text, segment_well_formed, upsert_model, AgentSection, AgentsDoc, FormatErrorKind,
    SegmentModel,
};
use crate::text::{
    char_is_space, chars_of, join_lines, lemma_join_split, split_lines, trim_end, trim_start,
};

verus! {

/// How a line of a diff relates the two versions.
#[derive(Clone, Copy, Debug, PartialEq, Eq, Structural)]
pub enum LineTag {
    /// In both versions.
    Equal,
    /// Only in the fragment's version.
    Delete,
    /// Only in the section's version.
    Insert,
}

/// Which version of a hunk to keep.
#[derive(Clone, Copy, Debug, PartialEq, Eq, Structural)]
pub enum Choice {
    /// The fragment's version.
    Skill,
    /// The section's version.
    Agents,
}

/// One line of a diff, with its line break if it has one.
#[derive(Debug)]
pub struct Change {
    pub tag: LineTag,
    pub text: String,
}

impl View for Change {
    type V = (LineTag, Seq<char>);

    open spec fn view(&self) -> (LineTag, Seq<char>) {
        (self.tag, self.text@)
    }
}

pub open spec fn hunks_view(hs: Seq<Vec<Change>>) -> Seq<Seq<(LineTag, Seq<char>)>> {
    hs.map_values(|h: Vec<Change>| h@.map_values(|c: Change| c@))
}

/// The hunks of a line diff of two texts, each change with up to three lines of context.
pub uninterp spec fn line_diff_hunks(left: Seq<char>, right: Seq<char>) -> Seq<
    Seq<(LineTag, Seq<char>)>,
>;

/// The changed (deleted or inserted) lines of a change list, in order.
pub open spec fn changed_of(ch: Seq<(LineTag, Seq<char>)>) -> Seq<(LineTag, Seq<char>)>
    decreases ch.len(),
{
    if ch.len() == 0 {
        Seq::empty()
    } else if ch.last().0 != LineTag::Equal {
        changed_of(ch.drop_last()).push(ch.last())
    } else {
        changed_of(ch.drop_last())
    }
}

/// The changes of all hunks, one hunk after another.
pub open spec fn hunks_flat(hs: Seq<Seq<(LineTag, Seq<char>)>>) -> Seq<(LineTag, Seq<char>)>
    decreases hs.len(),
{
    if hs.len() == 0 {
        Seq::empty()
    } else {
        hunks_flat(hs.drop_last()) + hs.last()
    }
}

/// Relies on `similar::TextDiff::from_lines` and `grouped_ops(3)`, which depend on the two
/// texts alone, and on `iter_changes` to list the lines of each group in order. Grouping
/// only trims and splits runs of equal lines (`group_diff_ops`), so the hunks hold every
/// changed line of the diff, in order; two equal texts give one run of equal lines, which
/// forms no hunk.
#[verifier::external_body]
fn diff_hunks(left: &str, right: &str) -> (r: Vec<Vec<Change>>)
    ensures
        hunks_view(r@) == line_diff_hunks(left@, right@),
        changed_of(hunks_flat(hunks_view(r@))) == changed_of(line_diff_changes(left@, right@)),
        left@ == right@ ==> r@.len() == 0,
{
    let diff = similar::TextDiff::from_lines(left, right);
    let mut hunks = Vec::new();
    for group in diff.grouped_ops(3) {
        let changes = group.iter().flat_map(|op| diff.iter_changes(op));
        hunks.push(changes.map(|c| Change { tag: match c.tag() {
            similar::ChangeTag::Equal => LineTag::Equal,
            similar::ChangeTag::Delete => LineTag::Delete,
            similar::ChangeTag::Insert => LineTag::Insert,
        }, text: c.value().to_string() }).collect());
    }
    hunks
}

/// The hunks in which the fragment's content (`left`) and the section's (`right`) differ.
pub fn conflict_hunks(left: &str, right: &str) -> (r: Vec<Vec<Change>>)
    ensures
        hunks_view(r@) == line_diff_hunks(left@, right@),
        changed_of(hunks_flat(hunks_view(r@))) == changed_of(line_diff_changes(left@, right@)),
        left@ == right@ ==> r@.len() == 0,
{
    diff_hunks(left, right)
}

/// Whether a line of the given kind is kept when its hunk is resolved with `c`.
pub open spec fn keeps(tag: LineTag, c: Choice) -> bool {
    match tag {
        LineTag::Equal => true,
        LineTag::Delete => c == Choice::Skill,
        LineTag::Insert => c == Choice::Agents,
    }
}

/// The lines of a change list other than those tagged `dropped`, one after another.
pub open spec fn side_of(ch: Seq<(LineTag, Seq<char>)>, dropped: LineTag) -> Seq<char>
    decreases ch.len(),
{
    if ch.len() == 0 {
        Seq::empty()
    } else {
        (if ch[0].0 != dropped {
            ch[0].1
        } else {
            Seq::empty()
        }) + side_of(ch.skip(1), dropped)
    }
}

/// Every line of a line diff of two texts, in order, each with its line break.
pub uninterp spec fn line_diff_changes(left: Seq<char>, right: Seq<char>) -> Seq<
    (LineTag, Seq<char>),
>;

pub open spec fn changes_view(ch: Seq<Change>) -> Seq<(LineTag, Seq<char>)> {
    ch.map_values(|c: Change| c@)
}

/// Relies on `similar::TextDiff::from_lines` and `iter_all_changes`: the changes of the whole
/// diff in order, the equal and deleted lines making up the old text, the equal and
/// inserted lines the new one.
#[verifier::external_body]
fn diff_changes(left: &str, right: &str) -> (r: Vec<Change>)
    ensures
        changes_view(r@) == line_diff_changes(left@, right@),
        side_of(changes_view(r@), LineTag::Insert) == left@,
        side_of(changes_view(r@), LineTag::Delete) == right@,
{
    let diff = similar::TextDiff::from_lines(left, right);
    diff.iter_all_changes().map(|c| Change { tag: match c.tag() {
        similar::ChangeTag::Equal => LineTag::Equal,
        similar::ChangeTag::Delete => LineTag::Delete,
        similar::ChangeTag::Insert => LineTag::Insert,
    }, text: c.value().to_string() }).collect()
}

/// The choice for each changed line of the hunks, in order: the choice of its hunk.
pub open spec fn hunk_change_choices(hs: Seq<Seq<(LineTag, Seq<char>)>>, cs: Seq<Choice>) -> Seq<
    Choice,
>
    decreases hs.len(),
{
    if hs.len() == 0 {
        Seq::empty()
    } else {
        hunk_change_choices(hs.drop_last(), cs) + repeat_per_change(hs.last(), cs[hs.len() - 1])
    }
}

/// `c` once for each changed line of `h`.
pub open spec fn repeat_per_change(h: Seq<(LineTag, Seq<char>)>, c: Choice) -> Seq<Choice>
    decreases h.len(),
{
    if h.len() == 0 {
        Seq::empty()
    } else if h.last().0 != LineTag::Equal {
        repeat_per_change(h.drop_last(), c).push(c)
    } else {
        repeat_per_change(h.drop_last(), c)
    }
}

/// The choice that applies to the next changed line: the first one left, `Skill` once none is.
pub open spec fn next_choice(per: Seq<Choice>) -> Choice {
    if per.len() > 0 {
        per[0]
    } else {
        Choice::Skill
    }
}

/// The merged content: every equal line once, and each changed line where the choice that
/// falls to it, taken in order from `per`, keeps it.
pub open spec fn merge_output(ch: Seq<(LineTag, Seq<char>)>, per: Seq<Choice>) -> Seq<char>
    decreases ch.len(),
{
    if ch.len() == 0 {
        Seq::empty()
    } else if ch[0].0 == LineTag::Equal {
        ch[0].1 + merge_output(ch.skip(1), per)
    } else {
        (if keeps(ch[0].0, next_choice(per)) {
            ch[0].1
        } else {
            Seq::empty()
        }) + merge_output(ch.skip(1), per.skip(if per.len() > 0 { 1int } else { 0int }))
    }
}

/// The choice of each hunk spread over its changed lines.
pub fn change_choices(hunks: &Vec<Vec<Change>>, choices: &Vec<Choice>) -> (r: Vec<Choice>)
    requires
        choices@.len() == hunks@.len(),
    ensures
        r@ == hunk_change_choices(hunks_view(hunks@), choices@),
{
    let ghost hs = hunks_view(hunks@);
    let mut r: Vec<Choice> = Vec::new();
    let mut i: usize = 0;
    while i < hunks.len()
        invariant
            i <= hunks@.len(),
            choices@.len() == hunks@.len(),
            hs == hunks_view(hunks@),
            r@ == hunk_change_choices(hs.subrange(0, i as int), choices@),
        decreases hunks.len() - i,
    {
        let ghost h = hs[i as int];
        let ghost start = r@;
        let c = choices[i];
        proof {
            assert(hs.subrange(0, i + 1).drop_last() =~= hs.subrange(0, i as int));
            assert(h == hunks@[i as int]@.map_values(|x: Change| x@));
        }
        let mut k: usize = 0;
        while k < hunks[i].len()
            invariant
                i < hunks@.len(),
                k <= hunks@[i as int]@.len(),
                h == hunks@[i as int]@.map_values(|x: Change| x@),
                r@ == start + repeat_per_change(h.subrange(0, k as int), c),
            decreases hunks@[i as int]@.len() - k,
        {
            let ghost prev = h.subrange(0, k as int);
            proof {
                assert(h.subrange(0, k + 1).drop_last() =~= prev);
                assert(h[k as int] == hunks@[i as int]@[k as int]@);
            }
            if hunks[i][k].tag != LineTag::Equal {
                r.push(c);
                proof {
                    assert(r@ =~= start + repeat_per_change(h.subrange(0, k + 1), c));
                }
            } else {
                proof {
                    assert(r@ =~= start + repeat_per_change(h.subrange(0, k + 1), c));
                }
            }
            k = k + 1;
        }
        proof {
            assert(h.subrange(0, h.len() as int) =~= h);
            assert(r@ =~= hunk_change_choices(hs.subrange(0, i + 1), choices@));
        }
        i = i + 1;
    }
    proof {
        assert(hs.subrange(0, hunks@.len() as int) =~= hs);
    }
    r
}

/// Merges a change list: equal lines always, each changed line under the next choice of
/// `per` (`Skill` once `per` runs out).
pub fn merge_changes(changes: &Vec<Change>, per: &Vec<Choice>) -> (r: String)
    ensures
        r@ == merge_output(changes_view(changes@), per@),
{
    let ghost ch = changes_view(changes@);
    let mut out = String::new();
    let mut i: usize = 0;
    let mut j: usize = 0;
    proof {
        assert(ch.skip(0) =~= ch);
        assert(per@.skip(0) =~= per@);
    }
    while i < changes.len()
        invariant
            i <= changes@.len(),
            j <= per@.len(),
            ch == changes_view(changes@),
            merge_output(ch, per@) == out@ + merge_output(ch.skip(i as int), per@.skip(j as int)),
        decreases changes.len() - i,
    {
        let ghost rest = ch.skip(i as int);
        proof {
            assert(rest.skip(1) =~= ch.skip(i + 1));
            assert(rest[0] == changes@[i as int]@);
        }
        let ghost pj = per@.skip(j as int);
        let ghost out0 = out@;
        let tag = changes[i].tag;
        if tag == LineTag::Equal {
            out.append(changes[i].text.as_str());
            proof {
                assert(out0 + merge_output(rest, pj) =~= out@ + merge_output(ch.skip(i + 1), pj));
            }
        } else {
            let c = if j < per.len() {
                per[j]
            } else {
                Choice::Skill
            };
            let keep = match tag {
                LineTag::Equal => true,
                LineTag::Delete => c == Choice::Skill,
                LineTag::Insert => c == Choice::Agents,
            };
            if keep {
                out.append(changes[i].text.as_str());
            }
            proof {
                if j < per@.len() {
                    assert(pj[0] == per@[j as int]);
                    assert(pj.skip(1) =~= per@.skip(j + 1));
                } else {
                    assert(pj.len() == 0);
                    assert(pj.skip(0) =~= pj);
                }
                assert(keep == keeps(rest[0].0, next_choice(pj)));
            }
            if j < per.len() {
                j = j + 1;
            }
            proof {
                assert(out0 + merge_output(rest, pj) =~= out@ + merge_output(ch.skip(i + 1), per@.skip(j as int)));
            }
        }
        i = i + 1;
    }
    proof {
        assert(ch.skip(changes@.len() as int) =~= Seq::<(LineTag, Seq<char>)>::empty());
        assert(out@ + Seq::<char>::empty() =~= out@);
    }
    out
}

/// Resolves the conflict between the fragment's content (`left`) and the section's (`right`)
/// with one choice per hunk of `conflict_hunks(left, right)`, in order: every line of the
/// whole diff that both share is kept once, and each changed line where its own hunk's
/// choice keeps it (the hunks hold the diff's changed lines in order). Choosing the fragment
/// for every hunk gives `left` back, the section for every hunk `right`; equal contents have
/// no hunk and resolve to `left`. `None` where the choices are not one per hunk.
pub fn resolve_hunks(left: &str, right: &str, choices: &Vec<Choice>) -> (r: Option<String>)
    ensures
        side_of(line_diff_changes(left@, right@), LineTag::Insert) == left@,
        side_of(line_diff_changes(left@, right@), LineTag::Delete) == right@,
        changed_of(hunks_flat(line_diff_hunks(left@, right@))) == changed_of(
            line_diff_changes(left@, right@),
        ),
        r is Some <==> choices@.len() == line_diff_hunks(left@, right@).len(),
        r is Some ==> r->0@ == merge_output(
            line_diff_changes(left@, right@),
            hunk_change_choices(line_diff_hunks(left@, right@), choices@),
        ),
        r is Some && (forall|k: int| 0 <= k < choices@.len() ==> choices@[k] == Choice::Skill)
            ==> r->0@ == left@,
        r is Some && (forall|k: int| 0 <= k < choices@.len() ==> choices@[k] == Choice::Agents)
            ==> r->0@ == right@,
        left@ == right@ ==> line_diff_hunks(left@, right@).len() == 0,
{
    let hunks = diff_hunks(left, right);
    let changes = diff_changes(left, right);
    if choices.len() != hunks.len() {
        return None;
    }
    let per = change_choices(&hunks, choices);
    proof {
        let hs = hunks_view(hunks@);
        let ch = changes_view(changes@);
        lemma_choice_count(hs, choices@);
        if forall|k: int| 0 <= k < choices@.len() ==> choices@[k] == Choice::Skill {
            lemma_choices_all(hs, choices@, Choice::Skill);
        }
        if forall|k: int| 0 <= k < choices@.len() ==> choices@[k] == Choice::Agents {
            lemma_choices_all(hs, choices@, Choice::Agents);
        }
        lemma_merge_dispositions(ch, per@);
    }
    Some(merge_changes(&changes, &per))
}

proof fn lemma_changed_append(a: Seq<(LineTag, Seq<char>)>, b: Seq<(LineTag, Seq<char>)>)
    ensures
        changed_of(a + b) == changed_of(a) + changed_of(b),
    decreases b.len(),
{
    if b.len() == 0 {
        assert(a + b =~= a);
        assert(changed_of(a) + changed_of(b) =~= changed_of(a));
    } else {
        lemma_changed_append(a, b.drop_last());
        assert((a + b).drop_last() =~= a + b.drop_last());
        assert(changed_of(a + b) =~= changed_of(a) + changed_of(b));
    }
}

proof fn lemma_repeat_len(h: Seq<(LineTag, Seq<char>)>, c: Choice)
    ensures
        repeat_per_change(h, c).len() == changed_of(h).len(),
        forall|k: int| 0 <= k < repeat_per_change(h, c).len() ==> #[trigger] repeat_per_change(h, c)[k] == c,
    decreases h.len(),
{
    if h.len() > 0 {
        lemma_repeat_len(h.drop_last(), c);
    }
}

proof fn lemma_choice_count(hs: Seq<Seq<(LineTag, Seq<char>)>>, cs: Seq<Choice>)
    requires
        cs.len() == hs.len(),
    ensures
        hunk_change_choices(hs, cs).len() == changed_of(hunks_flat(hs)).len(),
    decreases hs.len(),
{
    if hs.len() > 0 {
        lemma_choice_count(hs.drop_last(), cs.drop_last());
        lemma_choices_prefix(hs.drop_last(), cs);
        lemma_repeat_len(hs.last(), cs[hs.len() - 1]);
        lemma_changed_append(hunks_flat(hs.drop_last()), hs.last());
    }
}

proof fn lemma_choices_all(hs: Seq<Seq<(LineTag, Seq<char>)>>, cs: Seq<Choice>, c: Choice)
    requires
        cs.len() == hs.len(),
        forall|k: int| 0 <= k < cs.len() ==> cs[k] == c,
    ensures
        forall|k: int|
            0 <= k < hunk_change_choices(hs, cs).len() ==> #[trigger] hunk_change_choices(hs, cs)[k]
                == c,
    decreases hs.len(),
{
    if hs.len() > 0 {
        lemma_choices_all(hs.drop_last(), cs.drop_last(), c);
        lemma_choices_prefix(hs.drop_last(), cs);
        lemma_repeat_len(hs.last(), c);
        let a = hunk_change_choices(hs.drop_last(), cs);
        let b = repeat_per_change(hs.last(), cs[hs.len() - 1]);
        assert forall|k: int| 0 <= k < (a + b).len() implies #[trigger] (a + b)[k] == c by {
            if k >= a.len() {
                assert((a + b)[k] == b[k - a.len()]);
            }
        }
    }
}

proof fn lemma_choices_prefix(hs: Seq<Seq<(LineTag, Seq<char>)>>, cs: Seq<Choice>)
    requires
        hs.len() < cs.len(),
    ensures
        hunk_change_choices(hs, cs) == hunk_change_choices(hs, cs.drop_last()),
    decreases hs.len(),
{
    if hs.len() > 0 {
        lemma_choices_prefix(hs.drop_last(), cs);
        lemma_choices_prefix(hs.drop_last(), cs.drop_last());
        assert(hs.drop_last().len() < cs.drop_last().len());
    }
}

/// `s` with every `\r\n` replaced by `\n`, scanning from the left.
pub open spec fn crlf_to_lf(s: Seq<char>) -> Seq<char>
    decreases s.len(),
{
    if s.len() < 2 {
        s
    } else if s[0] == '\r' && s[1] == '\n' {
        seq!['\n'] + crlf_to_lf(s.skip(2))
    } else {
        seq![s[0]] + crlf_to_lf(s.skip(1))
    }
}

/// `s` without the line breaks at its end.
pub open spec fn trim_trailing_breaks(s: Seq<char>) -> Seq<char>
    decreases s.len(),
{
    if s.len() > 0 && s.last() == '\n' {
        trim_trailing_breaks(s.drop_last())
    } else {
        s
    }
}

/// The form in which two contents are compared: line endings unified, final breaks dropped.
pub open spec fn normalize(s: Seq<char>) -> Seq<char> {
    trim_trailing_breaks(crlf_to_lf(s))
}

fn unify_line_endings(s: &str) -> (r: String)
    ensures
        r@ == crlf_to_lf(s@),
{
    let cs = chars_of(s);
    let n = cs.len();
    let mut out = String::new();
    let mut start: usize = 0;
    let mut i: usize = 0;
    proof {
        assert(s@.skip(0) =~= s@);
        assert(out@ + s@.subrange(0, 0) =~= Seq::<char>::empty());
    }
    while i < n
        invariant
            n == s@.len(),
            cs@ == s@,
            start <= i <= n,
            crlf_to_lf(s@) == out@ + s@.subrange(start as int, i as int) + crlf_to_lf(s@.skip(i as int)),
        decreases n - i,
    {
        let ghost rest = s@.skip(i as int);
        if cs[i] == '\r' && i + 1 < n && cs[i + 1] == '\n' {
            out.append(s.substring_char(start, i));
            proof {
                assert(rest.skip(2) =~= s@.skip(i + 2));
                assert(s@.subrange(i + 1, i + 2) =~= seq!['\n']);
            }
            start = i + 1;
            i = i + 2;
        } else {
            proof {
                if rest.len() >= 2 {
                    assert(rest.skip(1) =~= s@.skip(i + 1));
                } else {
                    assert(s@.skip(i + 1) =~= Seq::<char>::empty());
                    assert(rest =~= seq![s@[i as int]]);
                }
                assert(s@.subrange(start as int, i as int) + seq![s@[i as int]] =~= s@.subrange(start as int, i + 1));
            }
            i = i + 1;
        }
        proof {
            assert(crlf_to_lf(s@) =~= out@ + s@.subrange(start as int, i as int) + crlf_to_lf(s@.skip(i as int)));
        }
    }
    out.append(s.substring_char(start, n));
    proof {
        assert(s@.skip(n as int) =~= Seq::<char>::empty());
        assert(out@ =~= crlf_to_lf(s@));
    }
    out
}

/// The normalized form of a content.
pub fn normalize_content(s: &str) -> (r: String)
    ensures
        r@ == normalize(s@),
{
    let u = unify_line_endings(s);
    let cs = chars_of(u.as_str());
    let mut e = cs.len();
    proof {
        assert(u@.subrange(0, e as int) =~= u@);
    }
    while e > 0 && cs[e - 1] == '\n'
        invariant
            e <= cs@.len(),
            cs@ == u@,
            trim_trailing_breaks(u@) == trim_trailing_breaks(u@.subrange(0, e as int)),
        decreases e,
    {
        proof {
            assert(u@.subrange(0, e as int).drop_last() =~= u@.subrange(0, e - 1));
        }
        e = e - 1;
    }
    u.as_str().substring_char(0, e).to_owned()
}

/// Where a name stands between the fragment store and the document.
#[derive(Clone, Copy, Debug, PartialEq, Eq, Structural)]
pub enum NameState {
    /// Neither side has it.
    Absent,
    /// Only the fragment store has it: the document gains a section.
    FragmentOnly,
    /// Only the document has it: the store gains a fragment.
    SectionOnly,
    /// Both have it, with the same normalized content.
    InSync,
    /// Both have it and the contents differ: the hunks are resolved.
    Diverged,
}

pub open spec fn state_of(fragment: Option<Seq<char>>, section: Option<Seq<char>>) -> NameState {
    match (fragment, section) {
        (None, None) => NameState::Absent,
        (Some(_), None) => NameState::FragmentOnly,
        (None, Some(_)) => NameState::SectionOnly,
        (Some(f), Some(s)) => if normalize(f) == normalize(s) {
            NameState::InSync
        } else {
            NameState::Diverged
        },
    }
}

pub open spec fn opt_view(o: Option<&str>) -> Option<Seq<char>> {
    match o {
        Some(s) => Some(s@),
        None => None,
    }
}

/// Classifies a name by the fragment's content and the section's content, where present.
pub fn classify(fragment: Option<&str>, section: Option<&str>) -> (r: NameState)
    ensures
        r == state_of(opt_view(fragment), opt_view(section)),
{
    match (fragment, section) {
        (None, None) => NameState::Absent,
        (Some(_), None) => NameState::FragmentOnly,
        (None, Some(_)) => NameState::SectionOnly,
        (Some(f), Some(s)) => {
            if normalize_content(f) == normalize_content(s) {
                NameState::InSync
            } else {
                NameState::Diverged
            }
        },
    }
}

/// The sign that a diff line is shown with.
pub open spec fn sign_of(tag: LineTag) -> Seq<char> {
    match tag {
        LineTag::Equal => seq![' '],
        LineTag::Delete => seq!['-'],
        LineTag::Insert => seq!['+'],
    }
}

/// A hunk as shown: each line after its sign.
pub open spec fn hunk_display(h: Seq<(LineTag, Seq<char>)>) -> Seq<char>
    decreases h.len(),
{
    if h.len() == 0 {
        Seq::empty()
    } else {
        hunk_display(h.drop_last()) + sign_of(h.last().0) + h.last().1
    }
}

pub fn render_hunk(h: &Vec<Change>) -> (r: String)
    ensures
        r@ == hunk_display(h@.map_values(|x: Change| x@)),
{
    let ghost hv = h@.map_values(|x: Change| x@);
    let mut out = String::new();
    let mut k: usize = 0;
    while k < h.len()
        invariant
            k <= h@.len(),
            hv == h@.map_values(|x: Change| x@),
            out@ == hunk_display(hv.subrange(0, k as int)),
        decreases h.len() - k,
    {
        proof {
            assert(hv.subrange(0, k + 1).drop_last() =~= hv.subrange(0, k as int));
            reveal_strlit(" ");
            reveal_strlit("-");
            reveal_strlit("+");
        }
        match h[k].tag {
            LineTag::Equal => out.append(" "),
            LineTag::Delete => out.append("-"),
            LineTag::Insert => out.append("+"),
        }
        out.append(h[k].text.as_str());
        proof {
            assert(out@ =~= hunk_display(hv.subrange(0, k + 1)));
        }
        k = k + 1;
    }
    proof {
        assert(hv.subrange(0, h@.len() as int) =~= hv);
    }
    out
}

pub open spec fn ascii_lower(c: char) -> char {
    if 'A' <= c && c <= 'Z' {
        ((c as u8) + 32) as char
    } else {
        c
    }
}

/// An answer to the prompt: trimmed, and ASCII letters taken in lower case.
pub open spec fn answer_of(s: Seq<char>) -> Seq<char> {
    trim_start(trim_end(s)).map_values(|c: char| ascii_lower(c))
}

/// The choice that an answer names: `s` or `skill`, `a` or `agents`, in any case.
pub open spec fn choice_of(s: Seq<char>) -> Option<Choice> {
    let t = answer_of(s);
    if t == "s"@ || t == "skill"@ {
        Some(Choice::Skill)
    } else if t == "a"@ || t == "agents"@ {
        Some(Choice::Agents)
    } else {
        None
    }
}

fn lower_char(c: char) -> (r: char)
    ensures
        r == ascii_lower(c),
{
    if 'A' <= c && c <= 'Z' {
        ((c as u8) + 32) as char
    } else {
        c
    }
}

fn lowered_equals(cs: &Vec<char>, b: usize, e: usize, lit: &str) -> (r: bool)
    requires
        b <= e <= cs@.len(),
    ensures
        r == (cs@.subrange(b as int, e as int).map_values(|c: char| ascii_lower(c)) == lit@),
{
    let ghost t = cs@.subrange(b as int, e as int).map_values(|c: char| ascii_lower(c));
    let n = lit.unicode_len();
    if n != e - b {
        return false;
    }
    let mut k: usize = 0;
    while k < n
        invariant
            n == lit@.len(),
            n == e - b,
            b <= e <= cs@.len(),
            k <= n,
            t == cs@.subrange(b as int, e as int).map_values(|c: char| ascii_lower(c)),
            forall|m: int| 0 <= m < k ==> t[m] == lit@[m],
        decreases n - k,
    {
        if lower_char(cs[b + k]) != lit.get_char(k) {
            return false;
        }
        k = k + 1;
    }
    proof {
        assert(t =~= lit@);
    }
    true
}

/// Reads a hunk choice from one line of input.
pub fn parse_choice(input: &str) -> (r: Option<Choice>)
    ensures
        r == choice_of(input@),
{
    let cs = chars_of(input);
    let mut e = cs.len();
    proof {
        assert(input@.subrange(0, e as int) =~= input@);
    }
    while e > 0 && char_is_space(cs[e - 1])
        invariant
            e <= cs@.len(),
            cs@ == input@,
            trim_end(input@) == trim_end(input@.subrange(0, e as int)),
        decreases e,
    {
        proof {
            assert(input@.subrange(0, e as int).drop_last() =~= input@.subrange(0, e - 1));
        }
        e = e - 1;
    }
    proof {
        assert(input@.subrange(0, cs@.len() as int) =~= input@);
    }
    let mut b: usize = 0;
    while b < e && char_is_space(cs[b])
        invariant
            b <= e <= cs@.len(),
            cs@ == input@,
            trim_end(input@) == input@.subrange(0, e as int),
            trim_start(trim_end(input@)) == trim_start(input@.subrange(b as int, e as int)),
        decreases e - b,
    {
        proof {
            assert(input@.subrange(b as int, e as int).drop_first() =~= input@.subrange(b + 1, e as int));
        }
        b = b + 1;
    }
    proof {
        assert(answer_of(input@) == cs@.subrange(b as int, e as int).map_values(|c: char| ascii_lower(c)));
    }
    if lowered_equals(&cs, b, e, "s") || lowered_equals(&cs, b, e, "skill") {
        Some(Choice::Skill)
    } else if lowered_equals(&cs, b, e, "a") || lowered_equals(&cs, b, e, "agents") {
        Some(Choice::Agents)
    } else {
        None
    }
}

} // verus!

verus! {

/// Merging keeps each line of a change list exactly once where its choice keeps it: with
/// every choice for the fragment the result is the fragment's side of the list (equal and
/// deleted lines), with every choice for the section the section's side (equal and inserted
/// lines); no line is repeated and none is dropped against its choice.
pub proof fn lemma_merge_dispositions(ch: Seq<(LineTag, Seq<char>)>, per: Seq<Choice>)
    ensures
        (forall|k: int| 0 <= k < per.len() ==> per[k] == Choice::Skill) ==> merge_output(ch, per)
            == side_of(ch, LineTag::Insert),
        (per.len() >= changed_of(ch).len() && forall|k: int|
            0 <= k < per.len() ==> per[k] == Choice::Agents) ==> merge_output(ch, per) == side_of(
            ch,
            LineTag::Delete,
        ),
    decreases ch.len(),
{
    if ch.len() > 0 {
        lemma_changed_append(seq![ch[0]], ch.skip(1));
        assert(seq![ch[0]] + ch.skip(1) =~= ch);
        assert(seq![ch[0]].drop_last() =~= Seq::<(LineTag, Seq<char>)>::empty());
        let np = per.skip(if per.len() > 0 { 1int } else { 0int });
        lemma_merge_dispositions(ch.skip(1), per);
        lemma_merge_dispositions(ch.skip(1), np);
        assert forall|k: int| 0 <= k < np.len() implies np[k] == per[k + (if per.len() > 0 { 1int } else { 0int })] by {}
    }
}

proof fn lemma_crlf_append(s: Seq<char>, t: Seq<char>)
    requires
        s.len() == 0 || s.last() != '\r',
    ensures
        crlf_to_lf(s + t) == crlf_to_lf(s) + crlf_to_lf(t),
    decreases s.len(),
{
    if s.len() == 0 {
        assert(s + t =~= t);
    } else if s.len() == 1 {
        if t.len() == 0 {
            assert(s + t =~= s);
        } else {
            assert((s + t).skip(1) =~= t);
            assert(crlf_to_lf(s) == s);
        }
    } else if s[0] == '\r' && s[1] == '\n' {
        lemma_crlf_append(s.skip(2), t);
        assert((s + t).skip(2) =~= s.skip(2) + t);
        assert(crlf_to_lf(s + t) =~= crlf_to_lf(s) + crlf_to_lf(t));
    } else {
        lemma_crlf_append(s.skip(1), t);
        assert((s + t).skip(1) =~= s.skip(1) + t);
        assert(crlf_to_lf(s + t) =~= crlf_to_lf(s) + crlf_to_lf(t));
    }
}

/// Contents that differ only in `\r\n` against `\n` line endings are in sync.
pub proof fn lemma_line_endings_ignored(a: Seq<char>, b: Seq<char>)
    requires
        crlf_to_lf(a) == crlf_to_lf(b),
    ensures
        state_of(Some(a), Some(b)) == NameState::InSync,
{
}

/// A content with a final line break more, written `\n` or `\r\n`, is in sync with the
/// content without it (where the content does not end in a lone `\r`).
pub proof fn lemma_trailing_break_ignored(s: Seq<char>)
    requires
        s.len() == 0 || s.last() != '\r',
    ensures
        state_of(Some(s), Some(s.push('\n'))) == NameState::InSync,
        state_of(Some(s), Some(s + seq!['\r', '\n'])) == NameState::InSync,
{
    lemma_crlf_append(s, seq!['\n']);
    lemma_crlf_append(s, seq!['\r', '\n']);
    assert(s.push('\n') =~= s + seq!['\n']);
    let c = crlf_to_lf(s);
    assert(crlf_to_lf(seq!['\n']) == seq!['\n']);
    let t = seq!['\r', '\n'];
    assert(t[0] == '\r' && t[1] == '\n' && t.len() == 2);
    assert(t.skip(2) =~= Seq::<char>::empty());
    assert(crlf_to_lf(t.skip(2)) == Seq::<char>::empty());
    assert(crlf_to_lf(seq!['\r', '\n']) =~= seq!['\n']);
    assert((c + seq!['\n']).drop_last() =~= c);
}

/// Once a name has been synced, both sides hold the same content: the fragment `f`, and the
/// section made from it, whose content string is `f` again. A second sync finds the name in
/// sync and asks nothing.
pub proof fn lemma_sync_settles(f: Seq<char>)
    ensures
        join_lines(split_lines(f)) == f,
        state_of(Some(f), Some(join_lines(split_lines(f)))) == NameState::InSync,
        state_of(Some(join_lines(split_lines(f))), Some(join_lines(split_lines(f))))
            == NameState::InSync,
{
    lemma_join_split(f);
}

} // verus!

verus! {

/// Lexicographic order on characters, the order of Rust's `str`.
pub open spec fn seq_less(a: Seq<char>, b: Seq<char>) -> bool
    decreases a.len(),
{
    if a.len() == 0 {
        b.len() > 0
    } else if b.len() == 0 {
        false
    } else if a[0] != b[0] {
        a[0] < b[0]
    } else {
        seq_less(a.drop_first(), b.drop_first())
    }
}

/// Ascending, without repeats.
pub open spec fn strictly_sorted(ns: Seq<Seq<char>>) -> bool {
    forall|i: int, j: int| 0 <= i < j < ns.len() ==> seq_less(#[trigger] ns[i], #[trigger] ns[j])
}

proof fn lemma_less_total(a: Seq<char>, b: Seq<char>)
    ensures
        !seq_less(a, a),
        a != b ==> seq_less(a, b) || seq_less(b, a),
        seq_less(a, b) ==> !seq_less(b, a),
    decreases a.len(),
{
    if a.len() > 0 {
        lemma_less_total(a.drop_first(), a.drop_first());
        if b.len() > 0 {
            lemma_less_total(a.drop_first(), b.drop_first());
            if a[0] == b[0] && a.drop_first() == b.drop_first() {
                assert(a =~= seq![a[0]] + a.drop_first());
                assert(b =~= seq![b[0]] + b.drop_first());
            }
        }
    } else {
        assert(b.len() > 0 || a =~= b);
    }
}

proof fn lemma_less_transitive(a: Seq<char>, b: Seq<char>, c: Seq<char>)
    requires
        seq_less(a, b),
        seq_less(b, c),
    ensures
        seq_less(a, c),
    decreases a.len(),
{
    if a.len() > 0 && b.len() > 0 && c.len() > 0 && a[0] == b[0] && b[0] == c[0] {
        lemma_less_transitive(a.drop_first(), b.drop_first(), c.drop_first());
    }
}

fn chars_less(a: &Vec<char>, b: &Vec<char>) -> (r: bool)
    ensures
        r == seq_less(a@, b@),
{
    let mut i: usize = 0;
    proof {
        assert(a@.skip(0) =~= a@);
        assert(b@.skip(0) =~= b@);
    }
    while i < a.len() && i < b.len() && a[i] == b[i]
        invariant
            i <= a@.len(),
            i <= b@.len(),
            seq_less(a@, b@) == seq_less(a@.skip(i as int), b@.skip(i as int)),
        decreases a.len() - i,
    {
        proof {
            assert(a@.skip(i as int).drop_first() =~= a@.skip(i + 1));
            assert(b@.skip(i as int).drop_first() =~= b@.skip(i + 1));
        }
        i = i + 1;
    }
    if i == a.len() {
        i < b.len()
    } else if i == b.len() {
        false
    } else {
        a[i] < b[i]
    }
}

fn insert_sorted(names: &mut Vec<String>, x: String)
    requires
        strictly_sorted(old(names).deep_view()),
    ensures
        strictly_sorted(final(names).deep_view()),
        forall|y: Seq<char>|
            final(names).deep_view().contains(y) <==> (old(names).deep_view().contains(y) || y
                == x@),
{
    let ghost before = names.deep_view();
    let xc = chars_of(x.as_str());
    let mut p: usize = 0;
    let mut stop = false;
    while p < names.len() && !stop
        invariant
            names.deep_view() == before,
            xc@ == x@,
            p <= before.len(),
            forall|m: int| 0 <= m < p ==> seq_less(#[trigger] before[m], x@),
            stop ==> p < before.len() && !seq_less(before[p as int], x@),
        decreases 2 * (names.len() - p) + (if stop { 0int } else { 1int }),
    {
        let vc = chars_of(names[p].as_str());
        proof {
            assert(before[p as int] == names@[p as int]@);
        }
        if chars_less(&vc, &xc) {
            p = p + 1;
        } else {
            stop = true;
        }
    }
    if p < names.len() && names[p] == x {
        proof {
            assert(before[p as int] == x@);
            assert forall|y: Seq<char>| names.deep_view().contains(y) <==> (before.contains(y) || y == x@) by {
                if y == x@ {
                    assert(before[p as int] == y);
                }
            }
        }
        return;
    }
    names.insert(p, x);
    proof {
        let after = names.deep_view();
        assert(after =~= before.insert(p as int, x@));
        if p < before.len() {
            lemma_less_total(before[p as int], x@);
        }
        assert forall|i: int, j: int| 0 <= i < j < after.len() implies seq_less(#[trigger] after[i], #[trigger] after[j]) by {
            if j == p {
                assert(after[i] == before[i]);
            } else if i == p {
                assert(after[j] == before[j - 1]);
                if j - 1 > p {
                    assert(seq_less(before[p as int], before[j - 1]));
                    lemma_less_transitive(x@, before[p as int], before[j - 1]);
                }
            } else {
                let oi = if i < p { i } else { i - 1 };
                let oj = if j < p { j } else { j - 1 };
                assert(after[i] == before[oi] && after[j] == before[oj]);
                assert(seq_less(before[oi], before[oj]));
            }
        }
        assert forall|y: Seq<char>| after.contains(y) <==> (before.contains(y) || y == x@) by {
            if after.contains(y) {
                let k = choose|k: int| 0 <= k < after.len() && after[k] == y;
                if k < p {
                    assert(before[k] == y);
                } else if k > p {
                    assert(before[k - 1] == y);
                }
            }
            if before.contains(y) {
                let k = choose|k: int| 0 <= k < before.len() && before[k] == y;
                if k < p {
                    assert(after[k] == y);
                } else {
                    assert(after[k + 1] == y);
                }
            }
            if y == x@ {
                assert(after[p as int] == y);
            }
        }
    }
}

/// Every name of either list once, in ascending order: the order in which names are synced.
pub fn all_names(section_names: &Vec<String>, skill_names: &Vec<String>) -> (r: Vec<String>)
    ensures
        strictly_sorted(r.deep_view()),
        forall|y: Seq<char>|
            r.deep_view().contains(y) <==> (section_names.deep_view().contains(y)
                || skill_names.deep_view().contains(y)),
{
    let mut r: Vec<String> = Vec::new();
    let mut i: usize = 0;
    while i < section_names.len()
        invariant
            i <= section_names@.len(),
            strictly_sorted(r.deep_view()),
            forall|y: Seq<char>|
                r.deep_view().contains(y) <==> section_names.deep_view().subrange(0, i as int).contains(y),
        decreases section_names.len() - i,
    {
        proof {
            assert(section_names.deep_view().subrange(0, i + 1) =~= section_names.deep_view().subrange(0, i as int).push(section_names@[i as int]@));
        }
        let ghost prev = section_names.deep_view().subrange(0, i as int);
        let ghost v = section_names@[i as int]@;
        insert_sorted(&mut r, section_names[i].clone());
        proof {
            assert forall|y: Seq<char>| prev.push(v).contains(y) <==> (prev.contains(y) || y == v) by {
                if prev.push(v).contains(y) {
                    let k = choose|k: int| 0 <= k < prev.len() + 1 && prev.push(v)[k] == y;
                    if k < prev.len() {
                        assert(prev[k] == y);
                    }
                }
                if prev.contains(y) {
                    let k = choose|k: int| 0 <= k < prev.len() && prev[k] == y;
                    assert(prev.push(v)[k] == y);
                }
                if y == v {
                    assert(prev.push(v)[prev.len() as int] == y);
                }
            }
        }
        i = i + 1;
    }
    proof {
        assert(section_names.deep_view().subrange(0, section_names@.len() as int) =~= section_names.deep_view());
        assert(skill_names.deep_view().subrange(0, 0) =~= Seq::<Seq<char>>::empty());
    }
    let mut j: usize = 0;
    while j < skill_names.len()
        invariant
            j <= skill_names@.len(),
            strictly_sorted(r.deep_view()),
            forall|y: Seq<char>|
                r.deep_view().contains(y) <==> (section_names.deep_view().contains(y)
                    || skill_names.deep_view().subrange(0, j as int).contains(y)),
        decreases skill_names.len() - j,
    {
        proof {
            assert(skill_names.deep_view().subrange(0, j + 1) =~= skill_names.deep_view().subrange(0, j as int).push(skill_names@[j as int]@));
        }
        let ghost prev = skill_names.deep_view().subrange(0, j as int);
        let ghost v = skill_names@[j as int]@;
        insert_sorted(&mut r, skill_names[j].clone());
        proof {
            assert forall|y: Seq<char>| prev.push(v).contains(y) <==> (prev.contains(y) || y == v) by {
                if prev.push(v).contains(y) {
                    let k = choose|k: int| 0 <= k < prev.len() + 1 && prev.push(v)[k] == y;
                    if k < prev.len() {
                        assert(prev[k] == y);
                    }
                }
                if prev.contains(y) {
                    let k = choose|k: int| 0 <= k < prev.len() && prev[k] == y;
                    assert(prev.push(v)[k] == y);
                }
                if y == v {
                    assert(prev.push(v)[prev.len() as int] == y);
                }
            }
        }
        j = j + 1;
    }
    proof {
        assert(section_names.deep_view().subrange(0, section_names@.len() as int) =~= section_names.deep_view());
        assert(skill_names.deep_view().subrange(0, skill_names@.len() as int) =~= skill_names.deep_view());
    }
    r
}

/// Whether the document must be written after a sync: when anything was written during it
/// (`updated`: a fragment saved, a section added, a conflict resolved; see `step_writes`), or
/// the rendered text differs from the text that was read (or none was).
pub fn needs_write(updated: bool, previous: Option<&str>, rendered: &str) -> (r: bool)
    ensures
        r == (updated || match previous {
            Some(o) => o@ != rendered@,
            None => true,
        }),
{
    if updated {
        return true;
    }
    match previous {
        Some(o) => String::from_str(o) != String::from_str(rendered),
        None => true,
    }
}

/// What is left to do for a name after the document side of its sync.
#[derive(Debug)]
pub enum NameStep {
    /// Nothing: the name is in sync, or unknown to both sides.
    Nothing,
    /// The document gained a section made from the fragment.
    SectionAdded,
    /// The fragment store must be given this content, the section's.
    SaveFragment(String),
    /// The two contents differ: resolve the hunks between them, then write the result to both.
    Resolve { skill: String, agents: String },
}

/// The content of the first section named `name`, if there is one.
pub open spec fn section_content_of(segs: Seq<SegmentModel>, name: Seq<char>) -> Option<Seq<char>> {
    let k = find_section(segs, name, 0);
    if k < segs.len() {
        Some(join_lines(segs[k]->Section_1))
    } else {
        None
    }
}

/// Syncs one name on the document's side, given the fragment's content where it exists: a
/// fragment without a section becomes a section; the rest is handed back.
pub fn sync_name(doc: &mut AgentsDoc, name: &str, fragment: Option<&str>) -> (r: NameStep)
    ensures
        ({
            let section = section_content_of(old(doc)@, name@);
            let state = state_of(opt_view(fragment), section);
            match r {
                NameStep::Nothing => (state == NameState::InSync || state == NameState::Absent)
                    && final(doc)@ == old(doc)@,
                NameStep::SectionAdded => state == NameState::FragmentOnly && final(doc)@
                    == upsert_model(old(doc)@, (name@, split_lines(fragment->0@))),
                NameStep::SaveFragment(s) => state == NameState::SectionOnly && s@
                    == section->0 && final(doc)@ == old(doc)@,
                NameStep::Resolve { skill, agents } => state == NameState::Diverged && skill@
                    == fragment->0@ && agents@ == section->0 && final(doc)@ == old(doc)@,
            }
        }),
{
    let section = match doc.get_section(name) {
        Some(s) => Some(s.content_string()),
        None => None,
    };
    let state = match &section {
        Some(s) => classify(fragment, Some(s.as_str())),
        None => classify(fragment, None),
    };
    match state {
        NameState::FragmentOnly => {
            let content = fragment.unwrap();
            doc.upsert_section(AgentSection::from_content(String::from_str(name), content));
            NameStep::SectionAdded
        },
        NameState::SectionOnly => NameStep::SaveFragment(section.unwrap()),
        NameState::Diverged => NameStep::Resolve {
            skill: String::from_str(fragment.unwrap()),
            agents: section.unwrap(),
        },
        _ => NameStep::Nothing,
    }
}

/// Whether a name's step writes anything: a saved fragment, an added section, or a
/// resolution written to both sides. Only a name that needs nothing writes nothing.
pub fn step_writes(step: &NameStep) -> (r: bool)
    ensures
        r == !(step is Nothing),
{
    match step {
        NameStep::Nothing => false,
        _ => true,
    }
}

/// Syncing twice changes nothing the second time. Once a name has been synced, its fragment
/// holds some content `f` and the document the section made from `f` (upserted into a
/// well-formed document, `f` having no line that closes the section). The text written then
/// reads back as the same document, which renders to the same text, so the second sync
/// writes nothing; and the name is in sync, so it asks nothing.
pub proof fn lemma_sync_idempotent(segs: Seq<SegmentModel>, name: Seq<char>, f: Seq<char>)
    requires
        doc_well_formed(segs),
        segment_well_formed(SegmentModel::Section(name, split_lines(f))),
    ensures
        ({
            let d = upsert_model(segs, (name, split_lines(f)));
            &&& parse_text(render_text(d)) == Ok::<
                Seq<SegmentModel>,
                (FormatErrorKind, Seq<char>),
            >(d)
            &&& state_of(Some(f), section_content_of(d, name)) == NameState::InSync
        }),
{
    lemma_upsert_well_formed(segs, (name, split_lines(f)));
    lemma_upsert_then_find(segs, (name, split_lines(f)));
    lemma_join_split(f);
}

/// Writes a resolved content into the document: the section of `name` becomes the one made
/// from it, in place where it stands.
pub fn apply_resolution(doc: &mut AgentsDoc, name: &str, resolved: &str)
    ensures
        final(doc)@ == upsert_model(old(doc)@, (name@, split_lines(resolved@))),
{
    doc.upsert_section(AgentSection::from_content(String::from_str(name), resolved));
}

/// What the fragment store holds for `n`, if anything.
pub open spec fn fragment_of(frags: Map<Seq<char>, Seq<char>>, n: Seq<char>) -> Option<Seq<char>> {
    if frags.dom().contains(n) {
        Some(frags[n])
    } else {
        None
    }
}

/// A second run over a settled state is quiet. After a sync every name stands on both sides
/// with one content: the store's fragment of each name is its section's content, and every
/// section has a fragment. For such a well-formed document, a run asks nothing and writes
/// nothing: every name is in sync (or on neither side), and the document read back from its
/// text is itself, so it renders to the text it was read from.
pub proof fn lemma_settled_run_is_quiet(segs: Seq<SegmentModel>, frags: Map<Seq<char>, Seq<char>>)
    requires
        doc_well_formed(segs),
        forall|n: Seq<char>|
            #![trigger section_content_of(segs, n)]
            #![trigger fragment_of(frags, n)]
            fragment_of(frags, n) == section_content_of(segs, n),
    ensures
        parse_text(render_text(segs)) == Ok::<Seq<SegmentModel>, (FormatErrorKind, Seq<char>)>(
            segs,
        ),
        forall|n: Seq<char>|
            #![trigger state_of(fragment_of(frags, n), section_content_of(segs, n))]
            state_of(fragment_of(frags, n), section_content_of(segs, n)) == NameState::InSync
                || state_of(fragment_of(frags, n), section_content_of(segs, n)) == NameState::Absent,
{
    crate::agents_md::lemma_parse_render(segs);
}

} // verus!
