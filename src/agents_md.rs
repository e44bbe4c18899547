use vstd::prelude::*;

use crate::text::{
    char_is_space, chars_of, has_no_break, is_space, join_lines, lemma_join_split,
    lemma_split_join, join_with_breaks, split_lines, split_preserve_trailing_newline,
    trim_end, trim_start,
};

verus! {

/// A named section: its name and its content, line by line.
#[derive(Debug)]
pub struct AgentSection {
    pub name: String,
    pub content_lines: Vec<String>,
}

impl View for AgentSection {
    type V = (Seq<char>, Seq<Seq<char>>);

    open spec fn view(&self) -> (Seq<char>, Seq<Seq<char>>) {
        (self.name@, self.content_lines.deep_view())
    }
}

/// What a segment of a document is: a span of free text, or a named section.
pub enum SegmentModel {
    Text(Seq<Seq<char>>),
    Section(Seq<char>, Seq<Seq<char>>),
}

pub open spec fn start_prefix() -> Seq<char> {
    "<!-- prime-agent(Start "@
}

pub open spec fn end_prefix() -> Seq<char> {
    "<!-- prime-agent(End "@
}

pub open spec fn marker_suffix() -> Seq<char> {
    ") -->"@
}

pub open spec fn header_prefix() -> Seq<char> {
    "## "@
}

pub open spec fn start_marker_of(name: Seq<char>) -> Seq<char> {
    start_prefix() + name + marker_suffix()
}

pub open spec fn end_marker_of(name: Seq<char>) -> Seq<char> {
    end_prefix() + name + marker_suffix()
}

pub open spec fn header_of(name: Seq<char>) -> Seq<char> {
    header_prefix() + name
}

/// The lines that a segment renders to.
pub open spec fn segment_lines(s: SegmentModel) -> Seq<Seq<char>> {
    match s {
        SegmentModel::Text(ls) => ls,
        SegmentModel::Section(n, c) => seq![start_marker_of(n), header_of(n)] + c + seq![
            end_marker_of(n),
        ],
    }
}

/// The lines of all segments, in order.
pub open spec fn render_lines(segs: Seq<SegmentModel>) -> Seq<Seq<char>>
    decreases segs.len(),
{
    if segs.len() == 0 {
        Seq::empty()
    } else {
        render_lines(segs.drop_last()) + segment_lines(segs.last())
    }
}

/// The text of a document.
pub open spec fn render_text(segs: Seq<SegmentModel>) -> Seq<char> {
    join_lines(render_lines(segs))
}

/// The names of the sections, in document order.
pub open spec fn section_names_of(segs: Seq<SegmentModel>) -> Seq<Seq<char>>
    decreases segs.len(),
{
    if segs.len() == 0 {
        Seq::empty()
    } else {
        let rest = section_names_of(segs.drop_last());
        match segs.last() {
            SegmentModel::Section(n, _) => rest.push(n),
            SegmentModel::Text(_) => rest,
        }
    }
}

pub open spec fn is_section_named(s: SegmentModel, name: Seq<char>) -> bool {
    match s {
        SegmentModel::Section(n, _) => n == name,
        SegmentModel::Text(_) => false,
    }
}

/// The index of the first section named `name` at or after `i`, or the length if none.
pub open spec fn find_section(segs: Seq<SegmentModel>, name: Seq<char>, i: int) -> int
    decreases segs.len() - i,
{
    if i >= segs.len() {
        segs.len() as int
    } else if is_section_named(segs[i], name) {
        i
    } else {
        find_section(segs, name, i + 1)
    }
}

/// The index of the last section before `j`, or -1 if none.
pub open spec fn last_section_before(segs: Seq<SegmentModel>, j: int) -> int
    decreases j,
{
    if j <= 0 {
        -1
    } else if segs[j - 1] is Section {
        j - 1
    } else {
        last_section_before(segs, j - 1)
    }
}

/// A section with the name replaces the first one with it in place; a new name is placed
/// right after the last section, or at the end where there is none.
pub open spec fn upsert_model(segs: Seq<SegmentModel>, sec: (Seq<char>, Seq<Seq<char>>)) -> Seq<
    SegmentModel,
> {
    let k = find_section(segs, sec.0, 0);
    let l = last_section_before(segs, segs.len() as int);
    if k < segs.len() {
        segs.update(k, SegmentModel::Section(sec.0, sec.1))
    } else if l >= 0 {
        segs.insert(l + 1, SegmentModel::Section(sec.0, sec.1))
    } else {
        segs.push(SegmentModel::Section(sec.0, sec.1))
    }
}

/// The segments without the sections named `name`.
pub open spec fn remove_model(segs: Seq<SegmentModel>, name: Seq<char>) -> Seq<SegmentModel>
    decreases segs.len(),
{
    if segs.len() == 0 {
        segs
    } else {
        let rest = remove_model(segs.drop_last(), name);
        if is_section_named(segs.last(), name) {
            rest
        } else {
            rest.push(segs.last())
        }
    }
}

/// The lines of sections rendered one after another, an empty line between two.
pub open spec fn sections_lines(secs: Seq<(Seq<char>, Seq<Seq<char>>)>) -> Seq<Seq<char>>
    decreases secs.len(),
{
    if secs.len() == 0 {
        Seq::empty()
    } else {
        let sep = if secs.len() > 1 {
            seq![Seq::<char>::empty()]
        } else {
            Seq::empty()
        };
        sections_lines(secs.drop_last()) + sep + segment_lines(
            SegmentModel::Section(secs.last().0, secs.last().1),
        )
    }
}

/// The name that a start-marker line carries: the text between prefix and suffix, trimmed.
pub open spec fn marker_name(l: Seq<char>) -> Seq<char> {
    trim_start(trim_end(l.subrange(start_prefix().len() as int, l.len() - marker_suffix().len())))
}

/// A line that opens a section.
pub open spec fn is_start_line(l: Seq<char>) -> bool {
    &&& l.len() >= start_prefix().len() + marker_suffix().len()
    &&& l.subrange(0, start_prefix().len() as int) == start_prefix()
    &&& l.subrange(l.len() - marker_suffix().len(), l.len() as int) == marker_suffix()
    &&& marker_name(l).len() > 0
}

/// A line that closes the section named `name`.
pub open spec fn is_end_line(l: Seq<char>, name: Seq<char>) -> bool {
    trim_end(l) == end_marker_of(name)
}

/// Why a text does not parse.
#[derive(Clone, Copy, Debug, PartialEq, Eq, Structural)]
pub enum FormatErrorKind {
    /// A start marker is the last line.
    MissingHeader,
    /// The line after a start marker is not the section's header.
    WrongHeader,
    /// No end marker follows a section's start.
    MissingEndMarker,
    /// Two sections share a name.
    DuplicateSection,
}

/// A text that does not parse: why, and the name of the section at fault.
#[derive(Debug)]
pub struct FormatError {
    pub kind: FormatErrorKind,
    pub name: String,
}

/// How many lines from `i` on come before the next start marker (or the end).
pub open spec fn gap_to_start(ls: Seq<Seq<char>>, i: int) -> nat
    decreases ls.len() - i,
{
    if i < 0 || i >= ls.len() || is_start_line(ls[i]) {
        0
    } else {
        1 + gap_to_start(ls, i + 1)
    }
}

/// How many lines from `i` on come before the end marker of `name` (or the end).
pub open spec fn gap_to_end(ls: Seq<Seq<char>>, i: int, name: Seq<char>) -> nat
    decreases ls.len() - i,
{
    if i < 0 || i >= ls.len() || is_end_line(ls[i], name) {
        0
    } else {
        1 + gap_to_end(ls, i + 1, name)
    }
}

/// The segments of the lines from `i` on: a text span up to the next start marker, then
/// that section, its header and content up to its end marker, and so on.
pub open spec fn parse_from(ls: Seq<Seq<char>>, i: int) -> Result<
    Seq<SegmentModel>,
    (FormatErrorKind, Seq<char>),
>
    decreases ls.len() - i,
{
    if i < 0 || i >= ls.len() {
        Ok(Seq::empty())
    } else {
        let j = i + gap_to_start(ls, i);
        let text = if j > i {
            seq![SegmentModel::Text(ls.subrange(i, j))]
        } else {
            Seq::empty()
        };
        if j >= ls.len() {
            Ok(text)
        } else {
            let name = marker_name(ls[j]);
            if j + 1 >= ls.len() {
                Err((FormatErrorKind::MissingHeader, name))
            } else if trim_end(ls[j + 1]) != header_of(name) {
                Err((FormatErrorKind::WrongHeader, name))
            } else {
                let e = j + 2 + gap_to_end(ls, j + 2, name);
                if e >= ls.len() {
                    Err((FormatErrorKind::MissingEndMarker, name))
                } else {
                    match parse_from(ls, e + 1) {
                        Ok(rest) => Ok(
                            text + seq![SegmentModel::Section(name, ls.subrange(j + 2, e))]
                                + rest,
                        ),
                        Err(x) => Err(x),
                    }
                }
            }
        }
    }
}

/// The first name of `ns`, from `i` on, that occurs again later, or the empty name if none.
pub open spec fn first_repeated(ns: Seq<Seq<char>>, i: int) -> Seq<char>
    decreases ns.len() - i,
{
    if i < 0 || i >= ns.len() {
        Seq::empty()
    } else if ns.subrange(i + 1, ns.len() as int).contains(ns[i]) {
        ns[i]
    } else {
        first_repeated(ns, i + 1)
    }
}

/// What a text parses to: its segments, which must not hold two sections of one name.
pub open spec fn parse_text(s: Seq<char>) -> Result<Seq<SegmentModel>, (FormatErrorKind, Seq<char>)> {
    match parse_from(split_lines(s), 0) {
        Ok(segs) => if section_names_of(segs).no_duplicates() {
            Ok(segs)
        } else {
            Err((FormatErrorKind::DuplicateSection, first_repeated(section_names_of(segs), 0)))
        },
        Err(x) => Err(x),
    }
}

pub open spec fn prepend(
    a: Seq<SegmentModel>,
    r: Result<Seq<SegmentModel>, (FormatErrorKind, Seq<char>)>,
) -> Result<Seq<SegmentModel>, (FormatErrorKind, Seq<char>)> {
    match r {
        Ok(b) => Ok(a + b),
        Err(x) => Err(x),
    }
}

/// No two sections share a name.
pub open spec fn names_unique(segs: Seq<SegmentModel>) -> bool {
    forall|i: int, j: int|
        0 <= i < j < segs.len() && segs[i] is Section && segs[j] is Section ==> (
        #[trigger] segs[i])->Section_0 != (#[trigger] segs[j])->Section_0
}

proof fn lemma_find_section_bounds(segs: Seq<SegmentModel>, name: Seq<char>, i: int)
    requires
        0 <= i <= segs.len(),
    ensures
        i <= find_section(segs, name, i) <= segs.len(),
        find_section(segs, name, i) < segs.len() ==> is_section_named(
            segs[find_section(segs, name, i)],
            name,
        ),
    decreases segs.len() - i,
{
    if i < segs.len() && !is_section_named(segs[i], name) {
        lemma_find_section_bounds(segs, name, i + 1);
    }
}

impl AgentSection {
    pub fn from_content(name: String, content: &str) -> (r: Self)
        ensures
            r@ == (name@, split_lines(content@)),
    {
        AgentSection { name, content_lines: split_preserve_trailing_newline(content) }
    }

    pub fn content_string(&self) -> (r: String)
        ensures
            r@ == join_lines(self@.1),
    {
        join_with_breaks(&self.content_lines)
    }
}

#[derive(Debug)]
enum DocSegment {
    Text(Vec<String>),
    Section(AgentSection),
}

impl DocSegment {
    spec fn model(&self) -> SegmentModel {
        match self {
            DocSegment::Text(ls) => SegmentModel::Text(ls.deep_view()),
            DocSegment::Section(s) => SegmentModel::Section(s@.0, s@.1),
        }
    }
}

/// A document: free text spans and named sections, in order.
#[derive(Debug)]
pub struct AgentsDoc {
    segments: Vec<DocSegment>,
}

impl View for AgentsDoc {
    type V = Seq<SegmentModel>;

    closed spec fn view(&self) -> Seq<SegmentModel> {
        self.segments@.map_values(|s: DocSegment| s.model())
    }
}

fn clone_range(ls: &Vec<String>, from: usize, to: usize) -> (r: Vec<String>)
    requires
        from <= to <= ls@.len(),
    ensures
        r.deep_view() == ls.deep_view().subrange(from as int, to as int),
{
    let mut r: Vec<String> = Vec::new();
    let mut i: usize = from;
    proof {
        assert(r.deep_view() =~= ls.deep_view().subrange(from as int, from as int));
    }
    while i < to
        invariant
            from <= i <= to <= ls@.len(),
            r.deep_view() == ls.deep_view().subrange(from as int, i as int),
        decreases to - i,
    {
        let ghost prev = r.deep_view();
        r.push(ls[i].clone());
        proof {
            assert(r.deep_view() =~= prev.push(ls[i as int]@));
            assert(ls.deep_view().subrange(from as int, i + 1) =~= ls.deep_view().subrange(
                from as int,
                i as int,
            ).push(ls[i as int]@));
        }
        i = i + 1;
    }
    r
}

fn clone_lines(ls: &Vec<String>) -> (r: Vec<String>)
    ensures
        r.deep_view() == ls.deep_view(),
{
    let r = clone_range(ls, 0, ls.len());
    proof {
        assert(ls.deep_view().subrange(0, ls@.len() as int) =~= ls.deep_view());
    }
    r
}

fn push_lines(out: &mut Vec<String>, ls: &Vec<String>)
    ensures
        final(out).deep_view() == old(out).deep_view() + ls.deep_view(),
{
    let c = clone_lines(ls);
    let mut i: usize = 0;
    while i < c.len()
        invariant
            i <= c.len(),
            c.deep_view() == ls.deep_view(),
            out.deep_view() == old(out).deep_view() + ls.deep_view().subrange(0, i as int),
        decreases c.len() - i,
    {
        let ghost prev = out.deep_view();
        out.push(c[i].clone());
        proof {
            assert(out.deep_view() =~= prev.push(c[i as int]@));
            assert(old(out).deep_view() + ls.deep_view().subrange(0, i + 1) =~= old(
                out,
            ).deep_view() + ls.deep_view().subrange(0, i as int).push(ls.deep_view()[i as int]));
        }
        i = i + 1;
    }
    proof {
        assert(ls.deep_view().subrange(0, ls.len() as int) =~= ls.deep_view());
    }
}

fn start_marker(name: &str) -> (r: String)
    ensures
        r@ == start_marker_of(name@),
{
    let mut r = String::from_str("<!-- prime-agent(Start ");
    r.append(name);
    r.append(") -->");
    r
}

fn end_marker(name: &str) -> (r: String)
    ensures
        r@ == end_marker_of(name@),
{
    let mut r = String::from_str("<!-- prime-agent(End ");
    r.append(name);
    r.append(") -->");
    r
}

fn header_line(name: &str) -> (r: String)
    ensures
        r@ == header_of(name@),
{
    let mut r = String::from_str("## ");
    r.append(name);
    r
}

/// Appends the lines of a section: markers, header and content.
fn push_section_lines(out: &mut Vec<String>, section: &AgentSection)
    ensures
        final(out).deep_view() == old(out).deep_view() + segment_lines(
            SegmentModel::Section(section@.0, section@.1),
        ),
{
    let ghost start = out.deep_view();
    out.push(start_marker(section.name.as_str()));
    out.push(header_line(section.name.as_str()));
    proof {
        assert(out.deep_view() =~= start + seq![
            start_marker_of(section@.0),
            header_of(section@.0),
        ]);
    }
    push_lines(out, &section.content_lines);
    let ghost mid = out.deep_view();
    out.push(end_marker(section.name.as_str()));
    proof {
        assert(out.deep_view() =~= mid.push(end_marker_of(section@.0)));
        assert(out.deep_view() =~= start + segment_lines(
            SegmentModel::Section(section@.0, section@.1),
        ));
    }
}

/// The end (exclusive) of `s[..to]` with trailing whitespace removed.
fn trimmed_end(s: &Vec<char>, from: usize, to: usize) -> (e: usize)
    requires
        from <= to <= s@.len(),
    ensures
        from <= e <= to,
        trim_end(s@.subrange(from as int, to as int)) == s@.subrange(from as int, e as int),
{
    let mut e = to;
    while e > from && char_is_space(s[e - 1])
        invariant
            from <= e <= to <= s@.len(),
            trim_end(s@.subrange(from as int, to as int)) == trim_end(
                s@.subrange(from as int, e as int),
            ),
        decreases e,
    {
        proof {
            assert(s@.subrange(from as int, e as int).drop_last() =~= s@.subrange(
                from as int,
                e - 1,
            ));
        }
        e = e - 1;
    }
    proof {
        let t = s@.subrange(from as int, e as int);
        assert(t.len() == 0 || !crate::text::is_space(t.last()));
    }
    e
}

/// The start of `s[from..to]` with leading whitespace removed.
fn trimmed_start(s: &Vec<char>, from: usize, to: usize) -> (b: usize)
    requires
        from <= to <= s@.len(),
    ensures
        from <= b <= to,
        trim_start(s@.subrange(from as int, to as int)) == s@.subrange(b as int, to as int),
{
    let mut b = from;
    while b < to && char_is_space(s[b])
        invariant
            from <= b <= to <= s@.len(),
            trim_start(s@.subrange(from as int, to as int)) == trim_start(
                s@.subrange(b as int, to as int),
            ),
        decreases to - b,
    {
        proof {
            assert(s@.subrange(b as int, to as int).drop_first() =~= s@.subrange(
                b + 1,
                to as int,
            ));
        }
        b = b + 1;
    }
    proof {
        let t = s@.subrange(b as int, to as int);
        assert(t.len() == 0 || !crate::text::is_space(t[0]));
    }
    b
}

fn trim_end_string(s: &str) -> (r: String)
    ensures
        r@ == trim_end(s@),
{
    let cs = chars_of(s);
    let e = trimmed_end(&cs, 0, cs.len());
    proof {
        assert(cs@.subrange(0, cs@.len() as int) =~= s@);
    }
    s.substring_char(0, e).to_owned()
}

fn seq_matches_at(cs: &Vec<char>, at: usize, lit: &str) -> (r: bool)
    requires
        at + lit@.len() <= cs@.len(),
    ensures
        r == (cs@.subrange(at as int, at + lit@.len()) == lit@),
{
    let n = lit.unicode_len();
    let m = cs.len();
    let mut k: usize = 0;
    while k < n
        invariant
            m == cs@.len(),
            n == lit@.len(),
            at + n <= cs@.len(),
            k <= n,
            cs@.subrange(at as int, at + k) == lit@.subrange(0, k as int),
        decreases n - k,
    {
        if cs[at + k] != lit.get_char(k) {
            proof {
                assert(cs@.subrange(at as int, at + n)[k as int] != lit@[k as int]);
            }
            return false;
        }
        proof {
            assert(cs@.subrange(at as int, at + k + 1) =~= lit@.subrange(0, k + 1));
        }
        k = k + 1;
    }
    proof {
        assert(lit@.subrange(0, n as int) =~= lit@);
    }
    true
}

/// The name that `line` opens a section for, if it is a start marker.
fn parse_start_marker(line: &str) -> (r: Option<String>)
    ensures
        r is Some <==> is_start_line(line@),
        r is Some ==> r->0@ == marker_name(line@),
{
    proof {
        reveal_strlit("<!-- prime-agent(Start ");
        reveal_strlit(") -->");
    }
    let cs = chars_of(line);
    let n = cs.len();
    if n < 28 {
        return None;
    }
    if !seq_matches_at(&cs, 0, "<!-- prime-agent(Start ") || !seq_matches_at(&cs, n - 5, ") -->") {
        return None;
    }
    let e = trimmed_end(&cs, 23, n - 5);
    let b = trimmed_start(&cs, 23, e);
    if b == e {
        return None;
    }
    Some(line.substring_char(b, e).to_owned())
}

fn is_end_marker(line: &str, name: &str) -> (r: bool)
    ensures
        r == is_end_line(line@, name@),
{
    trim_end_string(line) == end_marker(name)
}

impl AgentsDoc {
    pub fn empty() -> (r: Self)
        ensures
            r@ == Seq::<SegmentModel>::empty(),
    {
        let r = AgentsDoc { segments: Vec::new() };
        proof {
            assert(r@ =~= Seq::<SegmentModel>::empty());
        }
        r
    }

    pub fn parse(contents: &str) -> (r: Result<Self, FormatError>)
        ensures
            match parse_text(contents@) {
                Ok(m) => r is Ok && r->Ok_0@ == m,
                Err(x) => r is Err && r->Err_0.kind == x.0 && r->Err_0.name@ == x.1,
            },
            r is Ok ==> section_names_of(r->Ok_0@).no_duplicates(),
    {
        let lines = split_preserve_trailing_newline(contents);
        let ghost ls = lines.deep_view();
        let n = lines.len();
        let mut doc = AgentsDoc { segments: Vec::new() };
        let mut i: usize = 0;
        proof {
            assert(doc@ =~= Seq::<SegmentModel>::empty());
            assert(prepend(doc@, parse_from(ls, 0)) =~= parse_from(ls, 0));
        }
        while i < n
            invariant
                n == lines@.len(),
                ls == lines.deep_view(),
                ls == split_lines(contents@),
                i <= n,
                parse_from(ls, 0) == prepend(doc@, parse_from(ls, i as int)),
            decreases n - i,
        {
            let ghost segs0 = doc@;
            let mut j: usize = i;
            let mut found: Option<String> = None;
            while j < n && found.is_none()
                invariant
                    n == lines@.len(),
                    ls == lines.deep_view(),
                    i <= j <= n,
                    found is None ==> i + gap_to_start(ls, i as int) == j + gap_to_start(ls, j as int),
                    found is Some ==> j < n && i + gap_to_start(ls, i as int) == j
                        && found->0@ == marker_name(ls[j as int]),
                decreases 2 * (n - j) + (if found is None { 1int } else { 0int }),
            {
                found = parse_start_marker(lines[j].as_str());
                if found.is_none() {
                    j = j + 1;
                }
            }
            if j > i {
                let text = clone_range(&lines, i, j);
                doc.segments.push(DocSegment::Text(text));
            }
            let ghost segs1 = doc@;
            let ghost text_model = if j > i {
                seq![SegmentModel::Text(ls.subrange(i as int, j as int))]
            } else {
                Seq::<SegmentModel>::empty()
            };
            proof {
                assert(segs1 =~= segs0 + text_model);
            }
            match found {
                None => {
                    proof {
                        assert(parse_from(ls, n as int) == Ok::<Seq<SegmentModel>, (FormatErrorKind, Seq<char>)>(Seq::empty()));
                        assert(segs1 + Seq::<SegmentModel>::empty() =~= segs1);
                        assert(parse_from(ls, i as int) == Ok::<Seq<SegmentModel>, (FormatErrorKind, Seq<char>)>(text_model));
                    }
                    i = n;
                },
                Some(name) => {
                    if j + 1 >= n {
                        return Err(FormatError { kind: FormatErrorKind::MissingHeader, name });
                    }
                    let header = trim_end_string(lines[j + 1].as_str());
                    if header != header_line(name.as_str()) {
                        return Err(FormatError { kind: FormatErrorKind::WrongHeader, name });
                    }
                    let mut k: usize = j + 2;
                    while k < n && !is_end_marker(lines[k].as_str(), name.as_str())
                        invariant
                            n == lines@.len(),
                            ls == lines.deep_view(),
                            j + 2 <= k <= n,
                            j + 2 + gap_to_end(ls, j + 2, name@) == k + gap_to_end(ls, k as int, name@),
                        decreases n - k,
                    {
                        k = k + 1;
                    }
                    if k >= n {
                        return Err(FormatError { kind: FormatErrorKind::MissingEndMarker, name });
                    }
                    let content_lines = clone_range(&lines, j + 2, k);
                    let ghost sec = SegmentModel::Section(name@, content_lines.deep_view());
                    doc.segments.push(DocSegment::Section(AgentSection { name, content_lines }));
                    proof {
                        assert(doc@ =~= segs1.push(sec));
                        let r = parse_from(ls, k + 1);
                        match r {
                            Ok(rest) => {
                                assert(parse_from(ls, i as int) == Ok::<Seq<SegmentModel>, (FormatErrorKind, Seq<char>)>(text_model + seq![sec] + rest));
                                assert(segs1.push(sec) + rest =~= segs0 + (text_model + seq![sec] + rest));
                            },
                            Err(_) => {},
                        }
                    }
                    i = k + 1;
                },
            }
        }
        proof {
            assert(doc@ + Seq::<SegmentModel>::empty() =~= doc@);
        }
        let ghost segs = doc@;
        let ghost lines_model = split_lines(contents@);
        assert(parse_from(lines_model, 0) == Ok::<Seq<SegmentModel>, (FormatErrorKind, Seq<char>)>(segs));
        let names = doc.section_names();
        let ghost ns = names.deep_view();
        let m = names.len();
        let mut a: usize = 0;
        while a < m
            invariant
                m == names@.len(),
                ns == names.deep_view(),
                a <= m,
                forall|p: int, q: int| 0 <= p < a && p < q < m ==> ns[p] != ns[q],
                first_repeated(ns, 0) == first_repeated(ns, a as int),
                ns == section_names_of(segs),
                doc@ == segs,
                parse_from(lines_model, 0) == Ok::<Seq<SegmentModel>, (FormatErrorKind, Seq<char>)>(segs),
                lines_model == split_lines(contents@),
            decreases m - a,
        {
            let mut b: usize = a + 1;
            while b < m
                invariant
                    m == names@.len(),
                    ns == names.deep_view(),
                    a < m,
                    a + 1 <= b <= m,
                    forall|q: int| a < q < b ==> ns[a as int] != ns[q],
                    first_repeated(ns, 0) == first_repeated(ns, a as int),
                    ns == section_names_of(segs),
                    parse_from(lines_model, 0) == Ok::<Seq<SegmentModel>, (FormatErrorKind, Seq<char>)>(segs),
                    lines_model == split_lines(contents@),
                decreases m - b,
            {
                if names[a] == names[b] {
                    proof {
                        assert(ns.subrange(a + 1, m as int)[b - a - 1] == ns[a as int]);
                        assert(first_repeated(ns, a as int) == ns[a as int]);
                        assert(!ns.no_duplicates());
                    }
                    return Err(FormatError { kind: FormatErrorKind::DuplicateSection, name: names[a].clone() });
                }
                b = b + 1;
            }
            proof {
                if ns.subrange(a + 1, m as int).contains(ns[a as int]) {
                    let q = choose|q: int| 0 <= q < m - a - 1 && #[trigger] ns.subrange(a + 1, m as int)[q] == ns[a as int];
                    assert(ns[a + 1 + q] == ns[a as int]);
                }
            }
            a = a + 1;
        }
        proof {
            assert(ns.no_duplicates());
        }
        Ok(doc)
    }

    pub fn section_names(&self) -> (r: Vec<String>)
        ensures
            r.deep_view() == section_names_of(self@),
    {
        let mut r: Vec<String> = Vec::new();
        let mut i: usize = 0;
        while i < self.segments.len()
            invariant
                i <= self.segments.len(),
                r.deep_view() == section_names_of(self@.subrange(0, i as int)),
            decreases self.segments.len() - i,
        {
            let ghost prev = r.deep_view();
            proof {
                assert(self@.subrange(0, i + 1).drop_last() =~= self@.subrange(0, i as int));
            }
            match &self.segments[i] {
                DocSegment::Section(section) => {
                    r.push(section.name.clone());
                    proof {
                        assert(r.deep_view() =~= prev.push(section.name@));
                    }
                },
                DocSegment::Text(_) => {},
            }
            i = i + 1;
        }
        proof {
            assert(self@.subrange(0, self.segments.len() as int) =~= self@);
        }
        r
    }

    pub fn get_section(&self, name: &str) -> (r: Option<&AgentSection>)
        ensures
            find_section(self@, name@, 0) < self@.len() ==> r is Some && self@[find_section(
                self@,
                name@,
                0,
            )] == SegmentModel::Section(r->0@.0, r->0@.1),
            find_section(self@, name@, 0) >= self@.len() ==> r is None,
    {
        let key = String::from_str(name);
        let mut i: usize = 0;
        while i < self.segments.len()
            invariant
                i <= self.segments.len(),
                key@ == name@,
                find_section(self@, name@, 0) == find_section(self@, name@, i as int),
            decreases self.segments.len() - i,
        {
            proof {
                assert(self@[i as int] == self.segments@[i as int].model());
            }
            match &self.segments[i] {
                DocSegment::Section(section) => {
                    if section.name == key {
                        return Some(section);
                    }
                },
                DocSegment::Text(_) => {},
            }
            i = i + 1;
        }
        None
    }

    pub fn upsert_section(&mut self, section: AgentSection)
        ensures
            final(self)@ == upsert_model(old(self)@, section@),
    {
        let ghost segs = self@;
        let ghost sv = section@;
        let n = self.segments.len();
        let mut i: usize = 0;
        let mut found = false;
        while i < n && !found
            invariant
                n == self.segments.len(),
                i <= n,
                self@ == segs,
                sv == section@,
                !found ==> find_section(segs, sv.0, 0) == find_section(segs, sv.0, i as int),
                found ==> i < n && find_section(segs, sv.0, 0) == i,
            decreases 2 * (n - i) + (if found { 0int } else { 1int }),
        {
            proof {
                assert(self@[i as int] == self.segments@[i as int].model());
            }
            let same = match &self.segments[i] {
                DocSegment::Section(existing) => existing.name == section.name,
                DocSegment::Text(_) => false,
            };
            proof {
                assert(same == is_section_named(segs[i as int], sv.0));
            }
            if same {
                found = true;
            } else {
                i = i + 1;
            }
        }
        if found {
            self.segments.set(i, DocSegment::Section(section));
            proof {
                assert(self@ =~= segs.update(i as int, SegmentModel::Section(sv.0, sv.1)));
            }
        } else {
            let mut j: usize = n;
            let mut hit = false;
            while j > 0 && !hit
                invariant
                    j <= n,
                    n == self.segments.len(),
                    self@ == segs,
                    !hit ==> last_section_before(segs, n as int) == last_section_before(segs, j as int),
                    hit ==> j > 0 && last_section_before(segs, n as int) == j - 1,
                decreases 2 * j + (if hit { 0int } else { 1int }),
            {
                proof {
                    assert(self@[j - 1] == self.segments@[j - 1].model());
                }
                if let DocSegment::Section(_) = &self.segments[j - 1] {
                    hit = true;
                } else {
                    j = j - 1;
                }
            }
            if hit {
                self.segments.insert(j, DocSegment::Section(section));
                proof {
                    assert(self@ =~= segs.insert(j as int, SegmentModel::Section(sv.0, sv.1)));
                }
            } else {
                self.segments.push(DocSegment::Section(section));
                proof {
                    assert(self@ =~= segs.push(SegmentModel::Section(sv.0, sv.1)));
                }
            }
        }
    }

    pub fn remove_section(&mut self, name: &str) -> (r: bool)
        ensures
            final(self)@ == remove_model(old(self)@, name@),
            r == (find_section(old(self)@, name@, 0) < old(self)@.len()),
    {
        let ghost segs = self@;
        let key = String::from_str(name);
        let mut rest: Vec<DocSegment> = Vec::new();
        std::mem::swap(&mut rest, &mut self.segments);
        let mut kept: Vec<DocSegment> = Vec::new();
        let mut removed = false;
        let ghost mut i: int = 0;
        proof {
            lemma_find_section_bounds(segs, name@, 0);
            assert(segs.subrange(0, 0) =~= Seq::<SegmentModel>::empty());
            assert(kept@.map_values(|s: DocSegment| s.model()) =~= Seq::<SegmentModel>::empty());
            assert(rest@.map_values(|s: DocSegment| s.model()) =~= segs.subrange(0, segs.len() as int));
        }
        while rest.len() > 0
            invariant
                0 <= i <= segs.len(),
                i + rest.len() == segs.len(),
                key@ == name@,
                rest@.map_values(|s: DocSegment| s.model()) == segs.subrange(i, segs.len() as int),
                kept@.map_values(|s: DocSegment| s.model()) == remove_model(segs.subrange(0, i), name@),
                removed == (find_section(segs, name@, 0) < i),
                !removed ==> find_section(segs, name@, 0) == find_section(segs, name@, i),
            decreases rest.len(),
        {
            proof {
                assert(segs.subrange(0, i + 1).drop_last() =~= segs.subrange(0, i));
                assert(rest@.map_values(|s: DocSegment| s.model())[0] == segs[i]);
            }
            let ghost prev = kept@.map_values(|s: DocSegment| s.model());
            let ghost rest_before = rest@;
            let seg = rest.remove(0);
            proof {
                assert(seg.model() == segs[i]);
            }
            let drop = match &seg {
                DocSegment::Section(section) => section.name == key,
                DocSegment::Text(_) => false,
            };
            proof {
                assert(drop == is_section_named(segs[i], name@));
                lemma_find_section_bounds(segs, name@, i + 1);
            }
            if drop {
                removed = true;
            } else {
                kept.push(seg);
                proof {
                    assert(kept@.map_values(|s: DocSegment| s.model()) =~= prev.push(segs[i]));
                }
            }
            proof {
                assert(rest@ =~= rest_before.subrange(1, rest_before.len() as int));
                assert forall|k: int| 0 <= k < rest@.len() implies #[trigger] rest@[k].model() == segs[i + 1 + k] by {
                    assert(rest@[k] == rest_before[k + 1]);
                    assert(rest_before.map_values(|s: DocSegment| s.model())[k + 1] == segs.subrange(i, segs.len() as int)[k + 1]);
                }
                assert(rest@.map_values(|s: DocSegment| s.model()) =~= segs.subrange(i + 1, segs.len() as int));
                i = i + 1;
            }
        }
        self.segments = kept;
        proof {
            assert(segs.subrange(0, segs.len() as int) =~= segs);
            assert(self@ =~= remove_model(segs, name@));
        }
        removed
    }

    pub fn render(&self) -> (r: String)
        ensures
            r@ == render_text(self@),
    {
        let mut lines: Vec<String> = Vec::new();
        let mut i: usize = 0;
        while i < self.segments.len()
            invariant
                i <= self.segments.len(),
                lines.deep_view() == render_lines(self@.subrange(0, i as int)),
            decreases self.segments.len() - i,
        {
            proof {
                assert(self@.subrange(0, i + 1).drop_last() =~= self@.subrange(0, i as int));
                assert(self@[i as int] == self.segments@[i as int].model());
            }
            match &self.segments[i] {
                DocSegment::Text(text_lines) => {
                    push_lines(&mut lines, text_lines);
                },
                DocSegment::Section(section) => {
                    push_section_lines(&mut lines, section);
                },
            }
            i = i + 1;
        }
        proof {
            assert(self@.subrange(0, self.segments.len() as int) =~= self@);
        }
        join_with_breaks(&lines)
    }
}

} // verus!

verus! {

/// Renders sections one after another, an empty line between two.
pub fn render_sections(sections: &[AgentSection]) -> (r: String)
    ensures
        r@ == join_lines(sections_lines(sections@.map_values(|s: AgentSection| s@))),
{
    let ghost secs = sections@.map_values(|s: AgentSection| s@);
    let mut lines: Vec<String> = Vec::new();
    let mut i: usize = 0;
    while i < sections.len()
        invariant
            i <= sections@.len(),
            secs == sections@.map_values(|s: AgentSection| s@),
            lines.deep_view() == sections_lines(secs.subrange(0, i as int)),
        decreases sections.len() - i,
    {
        proof {
            assert(secs.subrange(0, i + 1).drop_last() =~= secs.subrange(0, i as int));
        }
        if i > 0 {
            lines.push(String::new());
        }
        let ghost mid = lines.deep_view();
        push_section_lines(&mut lines, &sections[i]);
        proof {
            if i > 0 {
                assert(mid =~= sections_lines(secs.subrange(0, i as int)) + seq![Seq::<char>::empty()]);
            } else {
                assert(mid =~= sections_lines(secs.subrange(0, i as int)));
            }
            assert(lines.deep_view() =~= sections_lines(secs.subrange(0, i + 1)));
        }
        i = i + 1;
    }
    proof {
        assert(secs.subrange(0, sections@.len() as int) =~= secs);
    }
    join_with_breaks(&lines)
}

} // verus!

verus! {

proof fn lemma_render_lines_append(a: Seq<SegmentModel>, b: Seq<SegmentModel>)
    ensures
        render_lines(a + b) == render_lines(a) + render_lines(b),
    decreases b.len(),
{
    if b.len() == 0 {
        assert(a + b =~= a);
        assert(render_lines(a) + render_lines(b) =~= render_lines(a));
    } else {
        lemma_render_lines_append(a, b.drop_last());
        assert((a + b).drop_last() =~= a + b.drop_last());
        assert(render_lines(a + b) =~= render_lines(a) + render_lines(b));
    }
}

proof fn lemma_render_one(s: SegmentModel)
    ensures
        render_lines(seq![s]) == segment_lines(s),
{
    let one = seq![s];
    assert(one.drop_last() =~= Seq::<SegmentModel>::empty());
    assert(render_lines(one.drop_last()) == Seq::<Seq<char>>::empty());
    assert(render_lines(one) =~= segment_lines(s));
}

proof fn lemma_gap_to_start(ls: Seq<Seq<char>>, i: int)
    requires
        0 <= i <= ls.len(),
    ensures
        i + gap_to_start(ls, i) <= ls.len(),
        i + gap_to_start(ls, i) < ls.len() ==> is_start_line(ls[i + gap_to_start(ls, i)]),
    decreases ls.len() - i,
{
    if i < ls.len() && !is_start_line(ls[i]) {
        lemma_gap_to_start(ls, i + 1);
    }
}

proof fn lemma_gap_to_end(ls: Seq<Seq<char>>, i: int, name: Seq<char>)
    requires
        0 <= i <= ls.len(),
    ensures
        i + gap_to_end(ls, i, name) <= ls.len(),
        i + gap_to_end(ls, i, name) < ls.len() ==> is_end_line(ls[i + gap_to_end(ls, i, name)], name),
    decreases ls.len() - i,
{
    if i < ls.len() && !is_end_line(ls[i], name) {
        lemma_gap_to_end(ls, i + 1, name);
    }
}

/// Each marker and header line is written the way rendering writes it: start markers with
/// no space around the name, and no trailing whitespace after a header or an end marker.
pub open spec fn markers_canonical(ls: Seq<Seq<char>>) -> bool {
    &&& forall|k: int|
        0 <= k < ls.len() && #[trigger] is_start_line(ls[k]) ==> ls[k] == start_marker_of(
            marker_name(ls[k]),
        ) && (k + 1 < ls.len() ==> trim_end(ls[k + 1]) == ls[k + 1])
    &&& forall|k: int|
        0 <= k < ls.len() && end_prefix().len() <= trim_end(#[trigger] ls[k]).len()
            && trim_end(ls[k]).subrange(0, end_prefix().len() as int) == end_prefix() ==> trim_end(
            ls[k],
        ) == ls[k]
}

proof fn lemma_render_parse_from(ls: Seq<Seq<char>>, i: int)
    requires
        0 <= i <= ls.len(),
        parse_from(ls, i) is Ok,
        markers_canonical(ls),
    ensures
        render_lines(parse_from(ls, i)->Ok_0) == ls.subrange(i, ls.len() as int),
    decreases ls.len() - i,
{
    if i >= ls.len() {
        assert(ls.subrange(i, ls.len() as int) =~= Seq::<Seq<char>>::empty());
    } else {
        lemma_gap_to_start(ls, i);
        let j = i + gap_to_start(ls, i);
        let text = if j > i {
            seq![SegmentModel::Text(ls.subrange(i, j))]
        } else {
            Seq::<SegmentModel>::empty()
        };
        assert(render_lines(text) == ls.subrange(i, j)) by {
            if j > i {
                lemma_render_one(SegmentModel::Text(ls.subrange(i, j)));
            } else {
                assert(ls.subrange(i, j) =~= Seq::<Seq<char>>::empty());
            }
        }
        if j < ls.len() {
            let name = marker_name(ls[j]);
            let e = j + 2 + gap_to_end(ls, j + 2, name);
            lemma_gap_to_end(ls, j + 2, name);
            let rest = parse_from(ls, e + 1)->Ok_0;
            let sec = SegmentModel::Section(name, ls.subrange(j + 2, e));
            lemma_render_parse_from(ls, e + 1);
            reveal_strlit("<!-- prime-agent(End ");
            reveal_strlit(") -->");
            assert(trim_end(ls[e]) == end_marker_of(name));
            assert(end_marker_of(name).subrange(0, end_prefix().len() as int) =~= end_prefix());
            assert(ls[e] == end_marker_of(name));
            assert(ls[j + 1] == header_of(name));
            lemma_render_lines_append(text, seq![sec]);
            lemma_render_lines_append(text + seq![sec], rest);
            lemma_render_one(sec);
            assert(render_lines(text + seq![sec] + rest) =~= ls.subrange(i, ls.len() as int));
        } else {
            assert(ls.subrange(i, j) =~= ls.subrange(i, ls.len() as int));
        }
    }
}

/// Rendering a parsed text gives the text back, where its marker and header lines are
/// written the way rendering writes them.
pub proof fn lemma_render_parse_round_trip(text: Seq<char>)
    requires
        parse_text(text) is Ok,
        markers_canonical(split_lines(text)),
    ensures
        render_text(parse_text(text)->Ok_0) == text,
{
    lemma_render_parse_from(split_lines(text), 0);
    lemma_join_split(text);
    assert(split_lines(text).subrange(0, split_lines(text).len() as int) =~= split_lines(text));
}

} // verus!

verus! {

proof fn lemma_last_section_before(segs: Seq<SegmentModel>, j: int)
    requires
        0 <= j <= segs.len(),
    ensures
        -1 <= last_section_before(segs, j) < j,
        last_section_before(segs, j) >= 0 ==> segs[last_section_before(segs, j)] is Section,
        forall|m: int| last_section_before(segs, j) < m < j ==> #[trigger] segs[m] is Text,
    decreases j,
{
    if j > 0 && !(segs[j - 1] is Section) {
        lemma_last_section_before(segs, j - 1);
    }
}

proof fn lemma_find_section_absent(segs: Seq<SegmentModel>, name: Seq<char>, i: int)
    requires
        0 <= i <= segs.len(),
        find_section(segs, name, i) >= segs.len(),
    ensures
        forall|m: int| i <= m < segs.len() ==> !is_section_named(#[trigger] segs[m], name),
    decreases segs.len() - i,
{
    if i < segs.len() {
        lemma_find_section_absent(segs, name, i + 1);
    }
}

proof fn lemma_find_section_first(segs: Seq<SegmentModel>, name: Seq<char>, i: int)
    requires
        0 <= i <= segs.len(),
    ensures
        forall|m: int| i <= m < find_section(segs, name, i) && m < segs.len() ==> !is_section_named(#[trigger] segs[m], name),
    decreases segs.len() - i,
{
    if i < segs.len() && !is_section_named(segs[i], name) {
        lemma_find_section_first(segs, name, i + 1);
    }
}

/// Upserting a name that the document has replaces that section where it stands and leaves
/// every other segment as it was; a new name goes right after the last section (past which
/// only text follows), or at the end where there is no section, the rest shifting by one.
pub proof fn lemma_upsert_position(segs: Seq<SegmentModel>, sec: (Seq<char>, Seq<Seq<char>>))
    ensures
        ({
            let k = find_section(segs, sec.0, 0);
            let r = upsert_model(segs, sec);
            k < segs.len() ==> {
                &&& r.len() == segs.len()
                &&& r[k] == SegmentModel::Section(sec.0, sec.1)
                &&& segs[k] is Section && segs[k]->Section_0 == sec.0
                &&& forall|m: int| 0 <= m < segs.len() && m != k ==> r[m] == segs[m]
                &&& forall|m: int| 0 <= m < k ==> !is_section_named(#[trigger] segs[m], sec.0)
            }
        }),
        ({
            let k = find_section(segs, sec.0, 0);
            let l = last_section_before(segs, segs.len() as int);
            let p = if l >= 0 {
                l + 1
            } else {
                segs.len() as int
            };
            let r = upsert_model(segs, sec);
            k >= segs.len() ==> {
                &&& r.len() == segs.len() + 1
                &&& (l >= 0 ==> segs[l] is Section)
                &&& forall|m: int| l < m < segs.len() ==> #[trigger] segs[m] is Text
                &&& r[p] == SegmentModel::Section(sec.0, sec.1)
                &&& forall|m: int| 0 <= m < p ==> r[m] == segs[m]
                &&& forall|m: int| p <= m < segs.len() ==> r[m + 1] == segs[m]
            }
        }),
{
    lemma_find_section_bounds(segs, sec.0, 0);
    lemma_find_section_first(segs, sec.0, 0);
    lemma_last_section_before(segs, segs.len() as int);
}

proof fn lemma_names_members(segs: Seq<SegmentModel>)
    ensures
        forall|x: Seq<char>|
            section_names_of(segs).contains(x) <==> exists|k: int|
                0 <= k < segs.len() && is_section_named(#[trigger] segs[k], x),
    decreases segs.len(),
{
    if segs.len() > 0 {
        let d = segs.drop_last();
        lemma_names_members(d);
        assert forall|x: Seq<char>|
            section_names_of(segs).contains(x) <==> exists|k: int|
                0 <= k < segs.len() && is_section_named(#[trigger] segs[k], x) by {
            let nd = section_names_of(d);
            let ns = section_names_of(segs);
            if ns.contains(x) {
                let q = choose|q: int| 0 <= q < ns.len() && ns[q] == x;
                if q < nd.len() {
                    match segs.last() {
                        SegmentModel::Section(n, _) => {
                            assert(ns[q] == nd[q]);
                        },
                        SegmentModel::Text(_) => {},
                    }
                    assert(nd.contains(x));
                    let k = choose|k: int| 0 <= k < d.len() && is_section_named(#[trigger] d[k], x);
                    assert(is_section_named(segs[k], x));
                } else {
                    assert(is_section_named(segs[segs.len() - 1], x));
                }
            }
            if exists|k: int| 0 <= k < segs.len() && is_section_named(#[trigger] segs[k], x) {
                let k = choose|k: int| 0 <= k < segs.len() && is_section_named(#[trigger] segs[k], x);
                if k < segs.len() - 1 {
                    assert(is_section_named(d[k], x));
                    assert(nd.contains(x));
                    let q = choose|q: int| 0 <= q < nd.len() && nd[q] == x;
                    match segs.last() {
                        SegmentModel::Section(n, _) => {
                            assert(ns[q] == x);
                        },
                        SegmentModel::Text(_) => {},
                    }
                } else {
                    assert(ns[ns.len() - 1] == x);
                }
            }
        }
    }
}

proof fn lemma_names_unique_no_duplicates(segs: Seq<SegmentModel>)
    ensures
        names_unique(segs) <==> section_names_of(segs).no_duplicates(),
    decreases segs.len(),
{
    if segs.len() > 0 {
        let d = segs.drop_last();
        lemma_names_unique_no_duplicates(d);
        lemma_names_members(d);
        let nd = section_names_of(d);
        assert(names_unique(segs) ==> names_unique(d)) by {
            if names_unique(segs) {
                assert forall|i: int, j: int|
                    0 <= i < j < d.len() && d[i] is Section && d[j] is Section implies (
                    #[trigger] d[i])->Section_0 != (#[trigger] d[j])->Section_0 by {
                    assert(segs[i] == d[i] && segs[j] == d[j]);
                }
            }
        }
        match segs.last() {
            SegmentModel::Section(n, _) => {
                if names_unique(segs) {
                    assert(!nd.contains(n)) by {
                        if nd.contains(n) {
                            let k = choose|k: int| 0 <= k < d.len() && is_section_named(#[trigger] d[k], n);
                            assert(segs[k] == d[k]);
                            assert(segs[k]->Section_0 != segs[segs.len() - 1]->Section_0);
                        }
                    }
                    assert(nd.push(n).no_duplicates()) by {
                        assert forall|i: int, j: int| 0 <= i < j < nd.push(n).len() implies nd.push(n)[i] != nd.push(n)[j] by {
                            if j == nd.len() {
                                assert(nd.contains(nd[i]));
                            } else {
                                assert(nd[i] != nd[j]);
                            }
                        }
                    }
                }
                if nd.push(n).no_duplicates() {
                    assert(nd.no_duplicates()) by {
                        assert forall|i: int, j: int| 0 <= i < j < nd.len() implies nd[i] != nd[j] by {
                            assert(nd.push(n)[i] == nd[i] && nd.push(n)[j] == nd[j]);
                        }
                    }
                    assert forall|i: int, j: int|
                        0 <= i < j < segs.len() && segs[i] is Section && segs[j] is Section implies (
                        #[trigger] segs[i])->Section_0 != (#[trigger] segs[j])->Section_0 by {
                        if j == segs.len() - 1 {
                            assert(is_section_named(d[i], segs[i]->Section_0));
                            if segs[i]->Section_0 == n {
                                assert(nd.contains(n));
                                let q = nd.index_of(n);
                                assert(nd.push(n)[q] == nd.push(n)[nd.len() as int]);
                            }
                        } else {
                            assert(segs[i] == d[i] && segs[j] == d[j]);
                        }
                    }
                }
            },
            SegmentModel::Text(_) => {
                if names_unique(d) {
                    assert forall|i: int, j: int|
                        0 <= i < j < segs.len() && segs[i] is Section && segs[j] is Section implies (
                        #[trigger] segs[i])->Section_0 != (#[trigger] segs[j])->Section_0 by {
                        assert(segs[i] == d[i] && segs[j] == d[j]);
                    }
                }
            },
        }
    }
}

proof fn lemma_upsert_names(segs: Seq<SegmentModel>, sec: (Seq<char>, Seq<Seq<char>>))
    ensures
        forall|x: Seq<char>|
            section_names_of(upsert_model(segs, sec)).contains(x) <==> (section_names_of(
                segs,
            ).contains(x) || x == sec.0),
{
    let r = upsert_model(segs, sec);
    lemma_names_members(segs);
    lemma_names_members(r);
    lemma_upsert_position(segs, sec);
    lemma_find_section_bounds(segs, sec.0, 0);
    lemma_last_section_before(segs, segs.len() as int);
    let k = find_section(segs, sec.0, 0);
    let l = last_section_before(segs, segs.len() as int);
    let p = if l >= 0 {
        l + 1
    } else {
        segs.len() as int
    };
    let q = if k < segs.len() {
        k
    } else {
        p
    };
    assert forall|x: Seq<char>|
        section_names_of(r).contains(x) <==> (section_names_of(segs).contains(x) || x == sec.0) by {
        assert(is_section_named(r[q], sec.0));
        if section_names_of(r).contains(x) && x != sec.0 {
            let i = choose|i: int| 0 <= i < r.len() && is_section_named(#[trigger] r[i], x);
            if k < segs.len() {
                assert(i != k);
                assert(is_section_named(segs[i], x));
            } else if i < p {
                assert(is_section_named(segs[i], x));
            } else {
                assert(i != p);
                assert(is_section_named(segs[i - 1], x));
            }
        }
        if section_names_of(segs).contains(x) && x != sec.0 {
            let i = choose|i: int| 0 <= i < segs.len() && is_section_named(#[trigger] segs[i], x);
            if k < segs.len() {
                assert(i != k);
                assert(is_section_named(r[i], x));
            } else if i < p {
                assert(is_section_named(r[i], x));
            } else {
                assert(is_section_named(r[i + 1], x));
            }
        }
    }
}

/// Upserting into a document whose section names are distinct keeps them distinct, and its
/// names afterwards are those it had and the upserted one.
pub proof fn lemma_upsert_keeps_names_unique(
    segs: Seq<SegmentModel>,
    sec: (Seq<char>, Seq<Seq<char>>),
)
    requires
        section_names_of(segs).no_duplicates(),
    ensures
        section_names_of(upsert_model(segs, sec)).no_duplicates(),
        forall|x: Seq<char>|
            section_names_of(upsert_model(segs, sec)).contains(x) <==> (section_names_of(
                segs,
            ).contains(x) || x == sec.0),
{
    let r = upsert_model(segs, sec);
    lemma_upsert_names(segs, sec);
    lemma_names_unique_no_duplicates(segs);
    lemma_names_unique_no_duplicates(r);
    lemma_upsert_position(segs, sec);
    let k = find_section(segs, sec.0, 0);
    lemma_find_section_bounds(segs, sec.0, 0);
    if k < segs.len() {
        assert forall|i: int, j: int|
            0 <= i < j < r.len() && r[i] is Section && r[j] is Section implies (
            #[trigger] r[i])->Section_0 != (#[trigger] r[j])->Section_0 by {
            assert(segs[i] is Section && segs[j] is Section);
            assert(r[i]->Section_0 == segs[i]->Section_0);
            assert(r[j]->Section_0 == segs[j]->Section_0);
        }
    } else {
        lemma_find_section_absent(segs, sec.0, 0);
        lemma_last_section_before(segs, segs.len() as int);
        assert(names_unique(segs));
        let l = last_section_before(segs, segs.len() as int);
        let p = if l >= 0 {
            l + 1
        } else {
            segs.len() as int
        };
        assert forall|i: int, j: int|
            0 <= i < j < r.len() && r[i] is Section && r[j] is Section implies (
            #[trigger] r[i])->Section_0 != (#[trigger] r[j])->Section_0 by {
            let oi = if i < p { i } else { i - 1 };
            let oj = if j < p { j } else { j - 1 };
            if i == p {
                assert(r[j] == segs[oj]);
                assert(!is_section_named(segs[oj], sec.0));
            } else if j == p {
                assert(r[i] == segs[oi]);
                assert(!is_section_named(segs[oi], sec.0));
            } else {
                assert(r[i] == segs[oi]);
                assert(r[j] == segs[oj]);
                assert(oi < oj);
                assert(segs[oi]->Section_0 != segs[oj]->Section_0);
            }
        }
    }
}

} // verus!

verus! {

/// A segment as parsing gives it: a text span of at least one line, none a start marker; a
/// section whose name has no line break and no whitespace at either end, and none of whose
/// content lines closes it. No line holds a line break.
pub open spec fn segment_well_formed(s: SegmentModel) -> bool {
    match s {
        SegmentModel::Text(ls) => ls.len() > 0 && forall|k: int|
            0 <= k < ls.len() ==> has_no_break(#[trigger] ls[k]) && !is_start_line(ls[k]),
        SegmentModel::Section(n, c) => {
            &&& n.len() > 0
            &&& has_no_break(n)
            &&& !is_space(n[0])
            &&& !is_space(n.last())
            &&& forall|k: int|
                0 <= k < c.len() ==> has_no_break(#[trigger] c[k]) && !is_end_line(c[k], n)
        },
    }
}

/// Well-formed segments, no two text spans next to each other, and not just one empty line.
pub open spec fn doc_well_formed(segs: Seq<SegmentModel>) -> bool {
    &&& forall|i: int| 0 <= i < segs.len() ==> segment_well_formed(#[trigger] segs[i])
    &&& forall|i: int|
        0 <= i < segs.len() - 1 ==> !(#[trigger] segs[i] is Text && segs[i + 1] is Text)
    &&& render_lines(segs) != seq![Seq::<char>::empty()]
    &&& section_names_of(segs).no_duplicates()
}

proof fn lemma_marker_lines(n: Seq<char>, c: Seq<Seq<char>>)
    requires
        segment_well_formed(SegmentModel::Section(n, c)),
    ensures
        is_start_line(start_marker_of(n)),
        marker_name(start_marker_of(n)) == n,
        trim_end(header_of(n)) == header_of(n),
        is_end_line(end_marker_of(n), n),
        has_no_break(start_marker_of(n)),
        has_no_break(header_of(n)),
        has_no_break(end_marker_of(n)),
{
    reveal_strlit("<!-- prime-agent(Start ");
    reveal_strlit("<!-- prime-agent(End ");
    reveal_strlit(") -->");
    reveal_strlit("## ");
    let sm = start_marker_of(n);
    assert(sm.subrange(start_prefix().len() as int, sm.len() - marker_suffix().len()) =~= n);
    assert(sm.subrange(0, start_prefix().len() as int) =~= start_prefix());
    assert(sm.subrange(sm.len() - marker_suffix().len(), sm.len() as int) =~= marker_suffix());
    assert(trim_end(n) == n);
    assert(trim_start(n) == n);
    assert(header_of(n).last() == n.last());
    assert(end_marker_of(n).last() == '>');
}

proof fn lemma_render_no_break(segs: Seq<SegmentModel>)
    requires
        forall|i: int| 0 <= i < segs.len() ==> segment_well_formed(#[trigger] segs[i]),
    ensures
        forall|k: int| 0 <= k < render_lines(segs).len() ==> has_no_break(#[trigger] render_lines(segs)[k]),
    decreases segs.len(),
{
    if segs.len() > 0 {
        let d = segs.drop_last();
        assert forall|i: int| 0 <= i < d.len() implies segment_well_formed(#[trigger] d[i]) by {
            assert(d[i] == segs[i]);
        }
        lemma_render_no_break(d);
        let last = segs.last();
        assert(segment_well_formed(segs[segs.len() - 1]));
        if let SegmentModel::Section(n, c) = last {
            lemma_marker_lines(n, c);
        }
        let r = render_lines(segs);
        assert forall|k: int| 0 <= k < r.len() implies has_no_break(#[trigger] r[k]) by {
            if k < render_lines(d).len() {
                assert(r[k] == render_lines(d)[k]);
            } else {
                let x = k - render_lines(d).len();
                assert(r[k] == segment_lines(last)[x]);
                if let SegmentModel::Section(n, c) = last {
                    if x >= 2 && x < 2 + c.len() {
                        assert(segment_lines(last)[x] == c[x - 2]);
                    }
                }
            }
        }
    }
}

proof fn lemma_gap_start_exact(ls: Seq<Seq<char>>, i: int, m: int)
    requires
        0 <= i,
        0 <= m,
        i + m <= ls.len(),
        forall|k: int| i <= k < i + m ==> !is_start_line(#[trigger] ls[k]),
        i + m == ls.len() || is_start_line(ls[i + m]),
    ensures
        gap_to_start(ls, i) == m,
    decreases m,
{
    if m > 0 {
        lemma_gap_start_exact(ls, i + 1, m - 1);
    }
}

proof fn lemma_gap_end_exact(ls: Seq<Seq<char>>, i: int, m: int, name: Seq<char>)
    requires
        0 <= i,
        0 <= m,
        i + m < ls.len(),
        forall|k: int| i <= k < i + m ==> !is_end_line(#[trigger] ls[k], name),
        is_end_line(ls[i + m], name),
    ensures
        gap_to_end(ls, i, name) == m,
    decreases m,
{
    if m > 0 {
        lemma_gap_end_exact(ls, i + 1, m - 1, name);
    }
}

/// Where segment `k` stands among the rendered lines.
proof fn lemma_split_at_segment(segs: Seq<SegmentModel>, k: int)
    requires
        0 <= k < segs.len(),
    ensures
        render_lines(segs) == render_lines(segs.subrange(0, k)) + segment_lines(segs[k])
            + render_lines(segs.subrange(k + 1, segs.len() as int)),
        render_lines(segs.subrange(0, k + 1)) == render_lines(segs.subrange(0, k)) + segment_lines(
            segs[k],
        ),
{
    let a = segs.subrange(0, k);
    let b = segs.subrange(k + 1, segs.len() as int);
    lemma_render_lines_append(a, seq![segs[k]]);
    lemma_render_lines_append(a + seq![segs[k]], b);
    lemma_render_one(segs[k]);
    assert(a + seq![segs[k]] =~= segs.subrange(0, k + 1));
    assert(segs.subrange(0, k + 1) + b =~= segs);
}

proof fn lemma_section_at(segs: Seq<SegmentModel>, q: int)
    requires
        doc_well_formed(segs),
        0 <= q < segs.len(),
        segs[q] is Section,
    ensures
        ({
            let ls = render_lines(segs);
            let o = render_lines(segs.subrange(0, q)).len() as int;
            let n = segs[q]->Section_0;
            let c = segs[q]->Section_1;
            &&& o + 2 + c.len() < ls.len()
            &&& is_start_line(ls[o])
            &&& marker_name(ls[o]) == n
            &&& trim_end(ls[o + 1]) == header_of(n)
            &&& gap_to_end(ls, o + 2, n) == c.len()
            &&& ls.subrange(o + 2, o + 2 + c.len()) == c
            &&& render_lines(segs.subrange(0, q + 1)).len() == o + 3 + c.len()
        }),
{
    let ls = render_lines(segs);
    let o = render_lines(segs.subrange(0, q)).len() as int;
    let n = segs[q]->Section_0;
    let c = segs[q]->Section_1;
    assert(segment_well_formed(segs[q]));
    lemma_split_at_segment(segs, q);
    lemma_marker_lines(n, c);
    let sl = segment_lines(segs[q]);
    assert(forall|x: int| 0 <= x < sl.len() ==> ls[o + x] == sl[x]);
    assert(ls[o] == sl[0]);
    assert(ls[o + 1] == sl[1]);
    assert(ls[o + 2 + c.len()] == sl[2 + c.len() as int]);
    assert forall|k: int| o + 2 <= k < o + 2 + c.len() implies !is_end_line(#[trigger] ls[k], n) by {
        assert(ls[k] == sl[k - o]);
        assert(sl[k - o] == c[k - o - 2]);
    }
    lemma_gap_end_exact(ls, o + 2, c.len() as int, n);
    assert forall|x: int| 0 <= x < c.len() implies ls.subrange(o + 2, o + 2 + c.len())[x] == c[x] by {
        assert(ls[o + 2 + x] == sl[2 + x]);
    }
    assert(ls.subrange(o + 2, o + 2 + c.len()) =~= c);
}

#[verifier::rlimit(50)]
proof fn lemma_parse_render_from(segs: Seq<SegmentModel>, k: int)
    requires
        doc_well_formed(segs),
        0 <= k <= segs.len(),
        k == 0 || segs[k - 1] is Section,
    ensures
        parse_from(render_lines(segs), render_lines(segs.subrange(0, k)).len() as int) == Ok::<
            Seq<SegmentModel>,
            (FormatErrorKind, Seq<char>),
        >(segs.subrange(k, segs.len() as int)),
    decreases segs.len() - k,
{
    let ls = render_lines(segs);
    let o = render_lines(segs.subrange(0, k)).len() as int;
    if k == segs.len() {
        assert(segs.subrange(0, k) =~= segs);
        assert(segs.subrange(k, segs.len() as int) =~= Seq::<SegmentModel>::empty());
    } else {
        lemma_split_at_segment(segs, k);
        assert(segment_well_formed(segs[k]));
        match segs[k] {
            SegmentModel::Section(n, c) => {
                lemma_section_at(segs, k);
                lemma_gap_start_exact(ls, o, 0);
                lemma_parse_render_from(segs, k + 1);
                let rest = segs.subrange(k + 1, segs.len() as int);
                assert(Seq::<SegmentModel>::empty() + seq![SegmentModel::Section(n, c)] + rest
                    =~= segs.subrange(k, segs.len() as int));
            },
            SegmentModel::Text(t) => {
                let sl = segment_lines(segs[k]);
                let j = o + t.len();
                assert(forall|x: int| 0 <= x < sl.len() ==> ls[o + x] == sl[x]);
                assert forall|x: int| o <= x < j implies !is_start_line(#[trigger] ls[x]) by {
                    assert(ls[x] == t[x - o]);
                }
                assert(ls.subrange(o, j) =~= t);
                if k + 1 == segs.len() {
                    assert(segs.subrange(k + 1, segs.len() as int) =~= Seq::<SegmentModel>::empty());
                    lemma_gap_start_exact(ls, o, t.len() as int);
                    assert(seq![SegmentModel::Text(t)] =~= segs.subrange(k, segs.len() as int));
                } else {
                    assert(!(segs[k] is Text && segs[k + 1] is Text));
                    let q = k + 1;
                    lemma_section_at(segs, q);
                    let n = segs[q]->Section_0;
                    let c = segs[q]->Section_1;
                    lemma_split_at_segment(segs, q);
                    assert(render_lines(segs.subrange(0, q)).len() == j);
                    lemma_gap_start_exact(ls, o, t.len() as int);
                    lemma_parse_render_from(segs, q + 1);
                    let rest = segs.subrange(q + 1, segs.len() as int);
                    assert(seq![SegmentModel::Text(t)] + seq![SegmentModel::Section(n, c)] + rest
                        =~= segs.subrange(k, segs.len() as int));
                }
            },
        }
    }
}

/// A well-formed document parses back from its own text: a sync that reads the text it
/// wrote finds the same document, renders the same text and has nothing to write.
pub proof fn lemma_parse_render(segs: Seq<SegmentModel>)
    requires
        doc_well_formed(segs),
    ensures
        parse_text(render_text(segs)) == Ok::<Seq<SegmentModel>, (FormatErrorKind, Seq<char>)>(
            segs,
        ),
{
    lemma_render_no_break(segs);
    let ls = render_lines(segs);
    if ls.len() == 1 && ls[0].len() == 0 {
        assert(ls =~~= seq![Seq::<char>::empty()]);
    }
    lemma_split_join(ls);
    lemma_parse_render_from(segs, 0);
    assert(segs.subrange(0, 0) =~= Seq::<SegmentModel>::empty());
    assert(segs.subrange(0, segs.len() as int) =~= segs);
}

} // verus!

verus! {

proof fn lemma_trim_end_shape(s: Seq<char>)
    ensures
        exists|k: int| 0 <= k <= s.len() && trim_end(s) == s.subrange(0, k),
        trim_end(s).len() > 0 ==> !is_space(trim_end(s).last()),
    decreases s.len(),
{
    if s.len() > 0 && is_space(s.last()) {
        lemma_trim_end_shape(s.drop_last());
        let k = choose|k: int| 0 <= k <= s.drop_last().len() && trim_end(s.drop_last()) == s.drop_last().subrange(0, k);
        assert(s.drop_last().subrange(0, k) =~= s.subrange(0, k));
    } else {
        assert(s.subrange(0, s.len() as int) =~= s);
    }
}

proof fn lemma_trim_start_shape(s: Seq<char>)
    ensures
        exists|k: int| 0 <= k <= s.len() && trim_start(s) == s.subrange(k, s.len() as int),
        trim_start(s).len() > 0 ==> !is_space(trim_start(s)[0]),
    decreases s.len(),
{
    if s.len() > 0 && is_space(s[0]) {
        lemma_trim_start_shape(s.drop_first());
        let k = choose|k: int| 0 <= k <= s.drop_first().len() && trim_start(s.drop_first()) == s.drop_first().subrange(k, s.drop_first().len() as int);
        assert(s.drop_first().subrange(k, s.drop_first().len() as int) =~= s.subrange(k + 1, s.len() as int));
    } else {
        assert(s.subrange(0, s.len() as int) =~= s);
    }
}

proof fn lemma_marker_name_shape(l: Seq<char>)
    requires
        is_start_line(l),
        has_no_break(l),
    ensures
        has_no_break(marker_name(l)),
        !is_space(marker_name(l)[0]),
        !is_space(marker_name(l).last()),
{
    let mid = l.subrange(start_prefix().len() as int, l.len() - marker_suffix().len());
    lemma_trim_end_shape(mid);
    let te = trim_end(mid);
    let a = choose|k: int| 0 <= k <= mid.len() && te == mid.subrange(0, k);
    lemma_trim_start_shape(te);
    let b = choose|k: int| 0 <= k <= te.len() && trim_start(te) == te.subrange(k, te.len() as int);
    let n = marker_name(l);
    assert forall|x: int| 0 <= x < n.len() implies n[x] != '\n' by {
        assert(n[x] == l[start_prefix().len() + b + x]);
    }
    assert(n.last() == te.last());
}

/// The segments from `i` on, as parsing gives them, are well formed, and the first is a
/// text span only where `i` starts one.
proof fn lemma_parse_from_well_formed(ls: Seq<Seq<char>>, i: int)
    requires
        0 <= i <= ls.len(),
        forall|k: int| 0 <= k < ls.len() ==> has_no_break(#[trigger] ls[k]),
        parse_from(ls, i) is Ok,
    ensures
        ({
            let segs = parse_from(ls, i)->Ok_0;
            &&& forall|x: int| 0 <= x < segs.len() ==> segment_well_formed(#[trigger] segs[x])
            &&& forall|x: int| 0 <= x < segs.len() - 1 ==> !(#[trigger] segs[x] is Text && segs[x + 1] is Text)
            &&& segs.len() == 1 && segs[0] is Text ==> segs[0]->Text_0 == ls.subrange(i, ls.len() as int)
        }),
    decreases ls.len() - i,
{
    if i < ls.len() {
        lemma_gap_to_start(ls, i);
        let j = i + gap_to_start(ls, i);
        assert forall|x: int| i <= x < j implies !is_start_line(#[trigger] ls[x]) by {
            lemma_gap_before(ls, i, x);
        }
        let text = if j > i {
            seq![SegmentModel::Text(ls.subrange(i, j))]
        } else {
            Seq::<SegmentModel>::empty()
        };
        if j > i {
            assert(segment_well_formed(text[0]));
        }
        if j >= ls.len() {
            assert(parse_from(ls, i)->Ok_0 == text);
        }
        if j < ls.len() {
            let name = marker_name(ls[j]);
            lemma_marker_name_shape(ls[j]);
            let e = j + 2 + gap_to_end(ls, j + 2, name);
            lemma_gap_to_end(ls, j + 2, name);
            let c = ls.subrange(j + 2, e);
            assert forall|x: int| 0 <= x < c.len() implies has_no_break(#[trigger] c[x]) && !is_end_line(c[x], name) by {
                lemma_gap_end_before(ls, j + 2, j + 2 + x, name);
            }
            let sec = SegmentModel::Section(name, c);
            assert(segment_well_formed(sec));
            lemma_parse_from_well_formed(ls, e + 1);
            let rest = parse_from(ls, e + 1)->Ok_0;
            let segs = text + seq![sec] + rest;
            assert(parse_from(ls, i)->Ok_0 == segs);
            assert forall|x: int| 0 <= x < segs.len() implies segment_well_formed(#[trigger] segs[x]) by {
                if x >= text.len() + 1 {
                    assert(segs[x] == rest[x - text.len() - 1]);
                }
            }
            assert forall|x: int| 0 <= x < segs.len() - 1 implies !(#[trigger] segs[x] is Text && segs[x + 1] is Text) by {
                if x >= text.len() + 1 {
                    assert(segs[x] == rest[x - text.len() - 1]);
                    assert(segs[x + 1] == rest[x + 1 - text.len() - 1]);
                } else if x == text.len() - 1 {
                    assert(segs[x + 1] == sec);
                }
            }
        }
    }
}

proof fn lemma_gap_before(ls: Seq<Seq<char>>, i: int, x: int)
    requires
        0 <= i <= x < i + gap_to_start(ls, i),
    ensures
        !is_start_line(ls[x]),
    decreases x - i,
{
    if x > i {
        lemma_gap_before(ls, i + 1, x);
    }
}

proof fn lemma_gap_end_before(ls: Seq<Seq<char>>, i: int, x: int, name: Seq<char>)
    requires
        0 <= i <= x < i + gap_to_end(ls, i, name),
    ensures
        !is_end_line(ls[x], name),
    decreases x - i,
{
    if x > i {
        lemma_gap_end_before(ls, i + 1, x, name);
    }
}

/// Whatever a text parses to is a well-formed document.
pub proof fn lemma_parse_well_formed(text: Seq<char>)
    requires
        parse_text(text) is Ok,
    ensures
        doc_well_formed(parse_text(text)->Ok_0),
{
    let ls = split_lines(text);
    lemma_join_split(text);
    lemma_parse_from_well_formed(ls, 0);
    let segs = parse_text(text)->Ok_0;
    if render_lines(segs) == seq![Seq::<char>::empty()] {
        lemma_render_lines_len(segs);
        assert(segs.len() <= 1);
        lemma_render_one(segs[0]);
        assert(segs =~= seq![segs[0]]);
        assert(segs[0] is Text);
        assert(ls.subrange(0, ls.len() as int) =~= ls);
        assert(ls =~~= seq![Seq::<char>::empty()]);
        assert(join_lines(ls) == Seq::<char>::empty());
    }
}

proof fn lemma_render_lines_len(segs: Seq<SegmentModel>)
    requires
        forall|x: int| 0 <= x < segs.len() ==> segment_well_formed(#[trigger] segs[x]),
    ensures
        render_lines(segs).len() >= segs.len(),
    decreases segs.len(),
{
    if segs.len() > 0 {
        assert forall|x: int| 0 <= x < segs.len() - 1 implies segment_well_formed(#[trigger] segs.drop_last()[x]) by {
            assert(segs.drop_last()[x] == segs[x]);
        }
        lemma_render_lines_len(segs.drop_last());
        assert(segment_well_formed(segs[segs.len() - 1]));
    }
}

} // verus!

verus! {

/// The document read back from the text that a parsed document renders to is that document:
/// a sync that changes nothing leaves a text that reads the same.
pub proof fn lemma_reparse_stable(text: Seq<char>)
    requires
        parse_text(text) is Ok,
    ensures
        parse_text(render_text(parse_text(text)->Ok_0)) == parse_text(text),
{
    lemma_parse_well_formed(text);
    lemma_parse_render(parse_text(text)->Ok_0);
}

/// Upserting a well-formed section into a well-formed document keeps it well formed, so the
/// document that a sync writes reads back as itself.
pub proof fn lemma_upsert_well_formed(segs: Seq<SegmentModel>, sec: (Seq<char>, Seq<Seq<char>>))
    requires
        doc_well_formed(segs),
        segment_well_formed(SegmentModel::Section(sec.0, sec.1)),
    ensures
        doc_well_formed(upsert_model(segs, sec)),
        parse_text(render_text(upsert_model(segs, sec))) == Ok::<
            Seq<SegmentModel>,
            (FormatErrorKind, Seq<char>),
        >(upsert_model(segs, sec)),
{
    let r = upsert_model(segs, sec);
    let new = SegmentModel::Section(sec.0, sec.1);
    lemma_upsert_position(segs, sec);
    lemma_find_section_bounds(segs, sec.0, 0);
    lemma_last_section_before(segs, segs.len() as int);
    let k = find_section(segs, sec.0, 0);
    let l = last_section_before(segs, segs.len() as int);
    let p = if l >= 0 {
        l + 1
    } else {
        segs.len() as int
    };
    assert forall|i: int| 0 <= i < r.len() implies segment_well_formed(#[trigger] r[i]) by {
        if k < segs.len() {
            if i != k {
                assert(r[i] == segs[i]);
            }
        } else if i < p {
            assert(r[i] == segs[i]);
        } else if i > p {
            assert(r[i] == segs[i - 1]);
        }
    }
    assert forall|i: int| 0 <= i < r.len() - 1 implies !(#[trigger] r[i] is Text && r[i + 1] is Text) by {
        if k < segs.len() {
            if i != k && i + 1 != k {
                assert(r[i] == segs[i] && r[i + 1] == segs[i + 1]);
            }
        } else if i + 1 < p {
            assert(r[i] == segs[i] && r[i + 1] == segs[i + 1]);
        } else if i > p {
            assert(r[i] == segs[i - 1] && r[i + 1] == segs[i]);
        }
    }
    let q = if k < segs.len() {
        k
    } else {
        p
    };
    assert(r[q] == new);
    lemma_split_at_segment(r, q);
    assert(segment_lines(new).len() >= 3);
    lemma_upsert_keeps_names_unique(segs, sec);
    lemma_parse_render(r);
}

} // verus!

verus! {

proof fn lemma_find_first(segs: Seq<SegmentModel>, name: Seq<char>, i: int, q: int)
    requires
        0 <= i <= q < segs.len(),
        is_section_named(segs[q], name),
        forall|m: int| i <= m < q ==> !is_section_named(#[trigger] segs[m], name),
    ensures
        find_section(segs, name, i) == q,
    decreases q - i,
{
    if i < q {
        lemma_find_section_first(segs, name, i);
        lemma_find_first(segs, name, i + 1, q);
    }
}

/// After an upsert, looking the name up finds the upserted section.
pub proof fn lemma_upsert_then_find(segs: Seq<SegmentModel>, sec: (Seq<char>, Seq<Seq<char>>))
    ensures
        find_section(upsert_model(segs, sec), sec.0, 0) < upsert_model(segs, sec).len(),
        upsert_model(segs, sec)[find_section(upsert_model(segs, sec), sec.0, 0)]
            == SegmentModel::Section(sec.0, sec.1),
{
    let r = upsert_model(segs, sec);
    lemma_upsert_position(segs, sec);
    lemma_find_section_bounds(segs, sec.0, 0);
    lemma_last_section_before(segs, segs.len() as int);
    let k = find_section(segs, sec.0, 0);
    if k < segs.len() {
        assert forall|m: int| 0 <= m < k implies !is_section_named(#[trigger] r[m], sec.0) by {
            assert(r[m] == segs[m]);
        }
        lemma_find_first(r, sec.0, 0, k);
    } else {
        lemma_find_section_absent(segs, sec.0, 0);
        let l = last_section_before(segs, segs.len() as int);
        let p = if l >= 0 {
            l + 1
        } else {
            segs.len() as int
        };
        assert forall|m: int| 0 <= m < p implies !is_section_named(#[trigger] r[m], sec.0) by {
            assert(r[m] == segs[m]);
        }
        lemma_find_first(r, sec.0, 0, p);
    }
}

} // verus!
