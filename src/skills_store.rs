use vstd::prelude::*;

use crate::text::chars_of;

verus! {

/// Where fragments are kept: one directory per name under `root`, the content in `SKILL.md`.
pub struct SkillsStore {
    pub root: String,
}

/// Why a fragment name is refused.
#[derive(Clone, Copy, Debug, PartialEq, Eq, Structural)]
pub enum NameError {
    Empty,
    /// A character other than an ASCII letter or digit, `-` or `_`.
    InvalidCharacter,
}

pub open spec fn is_name_char(c: char) -> bool {
    ('a' <= c && c <= 'z') || ('A' <= c && c <= 'Z') || ('0' <= c && c <= '9') || c == '-' || c
        == '_'
}

pub open spec fn is_valid_name(name: Seq<char>) -> bool {
    name.len() > 0 && forall|k: int| 0 <= k < name.len() ==> is_name_char(#[trigger] name[k])
}

/// `q` joined onto the path `p` as Unix paths join: an absolute `q` replaces `p`; otherwise a
/// `/` goes between them unless `p` is empty or already ends in one.
pub open spec fn join_path(p: Seq<char>, q: Seq<char>) -> Seq<char> {
    if q.len() > 0 && q[0] == '/' {
        q
    } else if p.len() == 0 || p.last() == '/' {
        p + q
    } else {
        p + seq!['/'] + q
    }
}

/// The path of a fragment's file: the name joined onto the root, then `SKILL.md`.
pub open spec fn skill_path_of(root: Seq<char>, name: Seq<char>) -> Seq<char> {
    join_path(join_path(root, name), "SKILL.md"@)
}

fn join(p: &str, q: &str) -> (r: String)
    ensures
        r@ == join_path(p@, q@),
{
    let pc = chars_of(p);
    let qc = chars_of(q);
    proof {
        reveal_strlit("/");
    }
    if qc.len() > 0 && qc[0] == '/' {
        return String::from_str(q);
    }
    let mut r = String::from_str(p);
    if pc.len() > 0 && pc[pc.len() - 1] != '/' {
        r.append("/");
    }
    r.append(q);
    r
}

impl SkillsStore {
    pub fn new(root: String) -> (r: Self)
        ensures
            r.root@ == root@,
    {
        SkillsStore { root }
    }

    pub fn validate_name(name: &str) -> (r: Result<(), NameError>)
        ensures
            name@.len() == 0 ==> r == Err::<(), NameError>(NameError::Empty),
            name@.len() > 0 && !is_valid_name(name@) ==> r == Err::<(), NameError>(
                NameError::InvalidCharacter,
            ),
            is_valid_name(name@) ==> r is Ok,
    {
        let cs = chars_of(name);
        if cs.len() == 0 {
            return Err(NameError::Empty);
        }
        let mut k: usize = 0;
        while k < cs.len()
            invariant
                cs@ == name@,
                k <= cs@.len(),
                forall|m: int| 0 <= m < k ==> is_name_char(#[trigger] name@[m]),
            decreases cs.len() - k,
        {
            let c = cs[k];
            let ok = ('a' <= c && c <= 'z') || ('A' <= c && c <= 'Z') || ('0' <= c && c <= '9')
                || c == '-' || c == '_';
            if !ok {
                return Err(NameError::InvalidCharacter);
            }
            k = k + 1;
        }
        Ok(())
    }

    pub fn skill_path(&self, name: &str) -> (r: String)
        ensures
            r@ == skill_path_of(self.root@, name@),
    {
        let dir = join(self.root.as_str(), name);
        join(dir.as_str(), "SKILL.md")
    }
}

/// A valid name stays under the root: its file is the root, a separator where the root does
/// not end in one, the name, and `/SKILL.md`.
pub proof fn lemma_valid_name_stays_under_root(root: Seq<char>, name: Seq<char>)
    requires
        is_valid_name(name),
    ensures
        skill_path_of(root, name) == (if root.len() == 0 || root.last() == '/' {
            root
        } else {
            root + seq!['/']
        }) + name + "/SKILL.md"@,
{
    reveal_strlit("SKILL.md");
    reveal_strlit("/SKILL.md");
    assert(is_name_char(name[0]));
    assert(is_name_char(name.last()));
    let base = if root.len() == 0 || root.last() == '/' {
        root
    } else {
        root + seq!['/']
    };
    let d = join_path(root, name);
    assert(d =~= base + name);
    assert(d.last() == name.last());
    assert(d + seq!['/'] + "SKILL.md"@ =~= base + name + "/SKILL.md"@);
}

} // verus!
