//! A walk over a tree of groups and entries that asks a store for each
//! entry's password.

use crate::pwn_db::{password_count, PwnDb};
use vstd::prelude::*;

verus! {

/// A leaf of the tree: a credential with an optional title and an optional
/// password.
#[derive(Debug)]
pub struct Entry {
    pub title: Option<String>,
    pub password: Option<String>,
}

/// A named inner node of the tree, with its children in order.
#[derive(Debug)]
pub struct Group {
    pub name: String,
    pub children: Vec<Node>,
}

/// A node of the tree.
#[derive(Debug)]
pub enum Node {
    Group(Group),
    Entry(Entry),
}

/// The title under which an entry is reported: its own, or the empty string
/// where it has none.
pub open spec fn entry_title(entry: Entry) -> Seq<char> {
    match entry.title {
        Some(title) => title@,
        None => Seq::empty(),
    }
}

/// The passwords below `group`, each with the path to its entry, in the order
/// in which a depth-first walk that takes a node before its later siblings
/// meets them, starting at the child at position `from`. A path is made of
/// `ancestors`, the name of `group`, the names of the groups between `group`
/// and the entry, and the entry's title. An entry without a password
/// contributes nothing.
pub open spec fn group_secrets(group: Group, ancestors: Seq<Seq<char>>, from: int) -> Seq<
    (Seq<Seq<char>>, Seq<char>),
>
    decreases group, group.children.len() - from,
{
    if 0 <= from < group.children.len() {
        let here = ancestors.push(group.name@);
        let first = match group.children[from] {
            Node::Group(inner) => group_secrets(inner, here, 0),
            Node::Entry(entry) => match entry.password {
                Some(password) => seq![(here.push(entry_title(entry)), password@)],
                None => Seq::empty(),
            },
        };
        first + group_secrets(group, ancestors, from + 1)
    } else {
        Seq::empty()
    }
}

/// What is reported of one password: its path with the occurrence count that
/// `records` give for it, and nothing where that count is zero.
pub open spec fn finding_of(secret: (Seq<Seq<char>>, Seq<char>), records: Seq<(Seq<u8>, u32)>) -> Seq<
    (Seq<Seq<char>>, u32),
> {
    let count = password_count(records, secret.1);
    if count != 0 {
        seq![(secret.0, count)]
    } else {
        Seq::empty()
    }
}

/// What is reported of a sequence of passwords, in their order.
pub open spec fn findings(
    secrets: Seq<(Seq<Seq<char>>, Seq<char>)>,
    records: Seq<(Seq<u8>, u32)>,
) -> Seq<(Seq<Seq<char>>, u32)>
    decreases secrets.len(),
{
    if secrets.len() == 0 {
        Seq::empty()
    } else {
        finding_of(secrets[0], records) + findings(secrets.skip(1), records)
    }
}

/// The number of steps that a walk has left below `group`, starting at the
/// child at position `from`: one for each entry, and two for each group
/// besides what its own children take.
pub open spec fn steps_below(group: Group, from: int) -> nat
    decreases group, group.children.len() - from,
{
    if 0 <= from < group.children.len() {
        let first: nat = match group.children[from] {
            Node::Group(inner) => 2 + steps_below(inner, 0),
            Node::Entry(_) => 1,
        };
        first + steps_below(group, from + 1)
    } else {
        0
    }
}

/// A group that the walk has entered and not yet left, with the position of
/// its child that comes next.
#[derive(Clone, Copy)]
struct Frame<'a> {
    group: &'a Group,
    next: usize,
}

/// The names of the groups of `frames`, outermost first.
spec fn frame_names(frames: Seq<Frame>) -> Seq<Seq<char>> {
    Seq::new(frames.len(), |i: int| frames[i].group.name@)
}

/// No frame points behind the children of its group.
spec fn frames_valid(frames: Seq<Frame>) -> bool {
    forall|i: int| 0 <= i < frames.len() ==> (#[trigger] frames[i]).next <= frames[i].group.children.len()
}

/// The passwords that a walk with the open groups `frames` has still to meet.
spec fn pending_of(frames: Seq<Frame>) -> Seq<(Seq<Seq<char>>, Seq<char>)>
    decreases frames.len(),
{
    if frames.len() == 0 {
        Seq::empty()
    } else {
        let top = frames.last();
        let below = frames.drop_last();
        group_secrets(*top.group, frame_names(below), top.next as int) + pending_of(below)
    }
}

/// The number of steps that a walk with the open groups `frames` has left.
spec fn work_of(frames: Seq<Frame>) -> nat
    decreases frames.len(),
{
    if frames.len() == 0 {
        0
    } else {
        let top = frames.last();
        1 + steps_below(*top.group, top.next as int) + work_of(frames.drop_last())
    }
}

/// A depth-first walk over a tree, held as the stack of the groups that are
/// open, outermost first. It takes the nodes in pre-order: a node before its
/// later siblings, and a group before its children.
pub struct Walker<'a> {
    stack: Vec<Frame<'a>>,
}

impl<'a> Walker<'a> {
    #[verifier::type_invariant]
    spec fn inv(self) -> bool {
        frames_valid(self.stack@)
    }

    /// The passwords that the walk has still to meet, each with the path to
    /// its entry, in the order of the walk.
    pub closed spec fn pending(self) -> Seq<(Seq<Seq<char>>, Seq<char>)> {
        pending_of(self.stack@)
    }

    /// The names of the groups that are open, outermost first.
    pub closed spec fn ancestors(self) -> Seq<Seq<char>> {
        frame_names(self.stack@)
    }

    /// The number of steps that the walk has left.
    pub closed spec fn work(self) -> nat {
        work_of(self.stack@)
    }

    /// Starts a walk over the tree below `root`.
    pub fn new(root: &'a Group) -> (walker: Walker<'a>)
        ensures
            walker.pending() == group_secrets(*root, Seq::empty(), 0),
            walker.ancestors() == seq![root.name@],
    {
        let mut stack: Vec<Frame<'a>> = Vec::new();
        stack.push(Frame { group: root, next: 0 });
        proof {
            assert(frame_names(stack@.drop_last()) =~= Seq::empty());
            assert(pending_of(stack@.drop_last()) =~= Seq::empty());
        }
        Walker { stack }
    }

    /// Goes on to the next entry that has a password and returns it, or
    /// returns `None` when the walk is over. The groups that are open
    /// afterwards are those that lead to the entry.
    pub fn next_entry(&mut self) -> (found: Option<&'a Entry>)
        ensures
            match found {
                Some(entry) => {
                    &&& entry.password matches Some(password)
                    &&& old(self).pending() == seq![
                        (final(self).ancestors().push(entry_title(*entry)), password@),
                    ] + final(self).pending()
                    &&& final(self).work() < old(self).work()
                },
                None => {
                    &&& old(self).pending().len() == 0
                    &&& final(self).pending().len() == 0
                    &&& final(self).ancestors().len() == 0
                },
            },
    {
        proof {
            use_type_invariant(&*self);
        }
        let mut stack: Vec<Frame<'a>> = Vec::new();
        std::mem::swap(&mut self.stack, &mut stack);
        loop
            invariant
                frames_valid(stack@),
                self.stack@.len() == 0,
                pending_of(stack@) == old(self).pending(),
                work_of(stack@) <= old(self).work(),
            decreases work_of(stack@),
        {
            let depth: usize = stack.len();
            if depth == 0 {
                return None;
            }
            let top: Frame<'a> = stack[depth - 1];
            let ghost before = stack@;
            let ghost below = before.drop_last();
            if top.next >= top.group.children.len() {
                stack.pop();
            } else {
                let child: &'a Node = &top.group.children[top.next];
                stack.set(depth - 1, Frame { group: top.group, next: top.next + 1 });
                proof {
                    assert(stack@.drop_last() =~= below);
                }
                match child {
                    Node::Group(inner) => {
                        let ghost advanced = stack@;
                        stack.push(Frame { group: inner, next: 0 });
                        proof {
                            let names = frame_names(below).push(top.group.name@);
                            assert(stack@.drop_last() =~= advanced);
                            assert(frame_names(advanced) =~= names);
                            assert(pending_of(stack@) == group_secrets(*inner, names, 0)
                                + pending_of(advanced));
                            assert(work_of(stack@) == 1 + steps_below(*inner, 0) + work_of(
                                advanced,
                            ));
                        }
                    },
                    Node::Entry(entry) => {
                        proof {
                            assert(frame_names(stack@) =~= frame_names(below).push(
                                top.group.name@,
                            ));
                        }
                        if entry.password.is_some() {
                            self.stack = stack;
                            return Some(entry);
                        }
                    },
                }
            }
        }
    }

    /// The path under which `entry` is reported while the groups that lead to
    /// it are open: their names, outermost first, and then the entry's title,
    /// or the empty string where it has none.
    pub fn path(&self, entry: &Entry) -> (path: Vec<String>)
        ensures
            path_view(path@) == self.ancestors().push(entry_title(*entry)),
    {
        let mut path: Vec<String> = Vec::new();
        let mut i: usize = 0;
        while i < self.stack.len()
            invariant
                0 <= i <= self.stack@.len(),
                path@.len() == i,
                forall|j: int| 0 <= j < i ==> (#[trigger] path@[j])@ == self.stack@[j].group.name@,
            decreases self.stack@.len() - i,
        {
            path.push(self.stack[i].group.name.clone());
            i += 1;
        }
        let title: String = match &entry.title {
            Some(title) => title.clone(),
            None => String::new(),
        };
        path.push(title);
        path
    }

    /// What is reported of `entry` while the groups that lead to it are open,
    /// once the store has given `count` for its password: its path and the
    /// count, and nothing where the count is zero.
    pub fn finding(&self, entry: &Entry, count: u32) -> (finding: Option<(Vec<String>, u32)>)
        ensures
            match finding {
                Some(found) => {
                    &&& count != 0
                    &&& found.1 == count
                    &&& path_view(found.0@) == self.ancestors().push(entry_title(*entry))
                },
                None => count == 0,
            },
    {
        if count != 0 {
            Some((self.path(entry), count))
        } else {
            None
        }
    }
}

/// A path as the sequence of its names.
pub open spec fn path_view(path: Seq<String>) -> Seq<Seq<char>> {
    Seq::new(path.len(), |i: int| path[i]@)
}

/// A list of findings as the sequence of their paths and counts.
pub open spec fn findings_view(list: Seq<(Vec<String>, u32)>) -> Seq<(Seq<Seq<char>>, u32)> {
    Seq::new(list.len(), |i: int| (path_view(list[i].0@), list[i].1))
}

/// What is reported of a first password and of those that follow it.
proof fn lemma_findings_step(
    first: (Seq<Seq<char>>, Seq<char>),
    rest: Seq<(Seq<Seq<char>>, Seq<char>)>,
    records: Seq<(Seq<u8>, u32)>,
)
    ensures
        findings(seq![first] + rest, records) == finding_of(first, records) + findings(rest, records),
{
    assert((seq![first] + rest).skip(1) =~= rest);
}

/// Walks the tree below `root` and asks `pwndb` for the password of each entry
/// that has one. Returns, in the order of the walk, the path and the
/// occurrence count of each entry whose password the store knows. An entry
/// without a password, or whose password the store gives the count zero, is
/// left out.
pub fn analyze_keepass_db(root: &Group, pwndb: &PwnDb) -> (result: Vec<(Vec<String>, u32)>)
    ensures
        findings_view(result@) == findings(group_secrets(*root, Seq::empty(), 0), pwndb@),
{
    let mut walker = Walker::new(root);
    let mut result: Vec<(Vec<String>, u32)> = Vec::new();
    loop
        invariant
            findings_view(result@) + findings(walker.pending(), pwndb@) == findings(
                group_secrets(*root, Seq::empty(), 0),
                pwndb@,
            ),
        decreases walker.work(),
    {
        match walker.next_entry() {
            None => {
                return result;
            },
            Some(entry) => {
                if let Some(password) = &entry.password {
                    let count: u32 = pwndb.search(password.as_str());
                    proof {
                        lemma_findings_step(
                            (walker.ancestors().push(entry_title(*entry)), password@),
                            walker.pending(),
                            pwndb@,
                        );
                    }
                    if let Some(finding) = walker.finding(entry, count) {
                        result.push(finding);
                    }
                }
            },
        }
    }
}

} // verus!
