//! Filesystem actions, and the model by which their effect is stated.
//!
//! The library plans; the caller performs each action in order. A model of
//! the filesystem maps each path to what stands there.

use vstd::prelude::*;

verus! {

/// What a path holds in the model.
pub enum Node {
    Dir,
    /// A regular file, with the text written into it when it was created.
    File(Seq<char>),
    /// A symbolic link, with its target.
    Link(Seq<char>),
}

/// The model of a filesystem: each existing path and what it holds.
pub type Fs = Map<Seq<char>, Node>;

/// One step of a plan, as the model sees it.
pub enum Op {
    CreateDirAll(Seq<char>),
    RemoveFile(Seq<char>),
    Symlink(Seq<char>, Seq<char>),
    Rename(Seq<char>, Seq<char>),
    ShiftIfPresent(Seq<char>, Seq<char>),
    CreateLog(Seq<char>, Seq<char>),
    StartCapture(Seq<char>),
    PrintPath(Seq<char>),
}

/// One step of a plan that the caller performs.
#[derive(Debug, PartialEq, Eq)]
pub enum Action {
    /// Create the directory and its ancestors; a failure aborts the plan.
    CreateDirAll { path: String },
    /// Remove the file; a missing file is no error.
    RemoveFile { path: String },
    /// Create `link` pointing at `target`; an existing `link` is left as it is.
    Symlink { target: String, link: String },
    /// Rename `from` to `to`, replacing `to`; a failure aborts the plan.
    Rename { from: String, to: String },
    /// Rename `from` to `to` if a link or file stands at `from` itself,
    /// without following links; a failure aborts the plan.
    ShiftIfPresent { from: String, to: String },
    /// Create (or truncate) the file and write `header` into it.
    CreateLog { path: String, header: String },
    /// Have the terminal multiplexer append the pane's output to the file.
    StartCapture { path: String },
    /// Print the path on standard output.
    PrintPath { path: String },
}

impl View for Action {
    type V = Op;

    open spec fn view(&self) -> Op {
        match self {
            Action::CreateDirAll { path } => Op::CreateDirAll(path@),
            Action::RemoveFile { path } => Op::RemoveFile(path@),
            Action::Symlink { target, link } => Op::Symlink(target@, link@),
            Action::Rename { from, to } => Op::Rename(from@, to@),
            Action::ShiftIfPresent { from, to } => Op::ShiftIfPresent(from@, to@),
            Action::CreateLog { path, header } => Op::CreateLog(path@, header@),
            Action::StartCapture { path } => Op::StartCapture(path@),
            Action::PrintPath { path } => Op::PrintPath(path@),
        }
    }
}

/// The model steps of a list of actions.
pub open spec fn ops_of(v: Seq<Action>) -> Seq<Op> {
    v.map_values(|a: Action| a@)
}

/// `fs` with whatever stands at `from` moved to `to`, if anything does.
pub open spec fn moved(fs: Fs, from: Seq<char>, to: Seq<char>) -> Fs {
    if fs.contains_key(from) {
        fs.remove(from).insert(to, fs[from])
    } else {
        fs
    }
}

/// The effect of one step.
pub open spec fn step(fs: Fs, op: Op) -> Fs {
    match op {
        Op::CreateDirAll(p) => if fs.contains_key(p) { fs } else { fs.insert(p, Node::Dir) },
        Op::RemoveFile(p) => fs.remove(p),
        Op::Symlink(t, l) => if fs.contains_key(l) { fs } else { fs.insert(l, Node::Link(t)) },
        Op::Rename(a, b) => moved(fs, a, b),
        Op::ShiftIfPresent(a, b) => moved(fs, a, b),
        Op::CreateLog(p, h) => fs.insert(p, Node::File(h)),
        Op::StartCapture(_) => fs,
        Op::PrintPath(_) => fs,
    }
}

/// The effect of a list of steps, performed in order.
pub open spec fn run(fs: Fs, ops: Seq<Op>) -> Fs
    decreases ops.len(),
{
    if ops.len() == 0 {
        fs
    } else {
        step(run(fs, ops.drop_last()), ops.last())
    }
}

/// What stands at `p`, if anything.
pub open spec fn node_at(fs: Fs, p: Seq<char>) -> Option<Node> {
    if fs.contains_key(p) {
        Some(fs[p])
    } else {
        None
    }
}

/// Performing two lists one after the other is performing their concatenation.
pub proof fn lemma_run_concat(fs: Fs, a: Seq<Op>, b: Seq<Op>)
    ensures
        run(fs, a + b) == run(run(fs, a), b),
    decreases b.len(),
{
    if b.len() == 0 {
        assert(a + b =~= a);
    } else {
        assert((a + b).drop_last() =~= a + b.drop_last());
        assert((a + b).last() == b.last());
        lemma_run_concat(fs, a, b.drop_last());
    }
}

pub proof fn lemma_run_push(fs: Fs, a: Seq<Op>, op: Op)
    ensures
        run(fs, a.push(op)) == step(run(fs, a), op),
{
    assert(a.push(op).drop_last() =~= a);
}

} // verus!
