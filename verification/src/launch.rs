//! Gathering the paths of several calls, where the file manager makes one call for each.
use vstd::prelude::*;

use crate::text::{
    blank, lemma_pieces_of_unbroken, lemma_pieces_split, lemma_trimmed_blank, lemma_trimmed_same,
    pieces, split, texts, trim, trimmed, unbroken, white, Separator,
};

verus! {

/// The file that paths are gathered in.
pub const LAUNCH_QUEUE: &'static str = "launch-queue.txt";

/// The file that tells that one call is gathering.
pub const LAUNCH_LOCK: &'static str = "launch.lock";

/// How long the gathering call waits for the others, in milliseconds.
pub const LAUNCH_WAIT: u64 = 550;

/// What is added to the queue: one line for each path.
pub open spec fn queue_lines(paths: Seq<Seq<char>>) -> Seq<char>
    decreases paths.len(),
{
    if paths.len() == 0 {
        Seq::empty()
    } else {
        queue_lines(paths.drop_last()) + paths.last().push('\n')
    }
}

/// A line with something on it.
pub open spec fn path_on(line: Seq<char>) -> Option<Seq<char>> {
    if trimmed(line).len() == 0 {
        None
    } else {
        Some(trimmed(line))
    }
}

/// The paths on some lines.
pub open spec fn paths_on(lines: Seq<Seq<char>>) -> Seq<Seq<char>>
    decreases lines.len(),
{
    if lines.len() == 0 {
        Seq::empty()
    } else {
        let before = paths_on(lines.drop_last());
        match path_on(lines.last()) {
            Some(path) => before.push(path),
            None => before,
        }
    }
}

/// The paths in a queue: its lines without the white space around them, but for those with
/// nothing else on them.
pub open spec fn queued(text: Seq<char>) -> Seq<Seq<char>> {
    paths_on(pieces(Separator::Char('\n'), text))
}

/// Writes lines for the queue.
pub fn write_queue(paths: &Vec<String>) -> (r: String)
    ensures
        r@ == queue_lines(texts(paths@)),
{
    let ghost all = texts(paths@);
    let mut r = String::new();
    let mut i: usize = 0;
    proof {
        reveal_strlit("\n");
        assert("\n"@ =~= seq!['\n']);
        assert(all.take(0) =~= Seq::empty());
    }
    while i < paths.len()
        invariant
            i <= paths@.len(),
            all == texts(paths@),
            "\n"@ == seq!['\n'],
            r@ == queue_lines(all.take(i as int)),
        decreases paths@.len() - i,
    {
        let ghost before = r@;
        r.append(paths[i].as_str());
        r.append("\n");
        assert(all.take(i + 1).drop_last() =~= all.take(i as int));
        assert(all.take(i + 1).last() == paths@[i as int]@);
        assert(r@ =~= before + paths@[i as int]@.push('\n'));
        i += 1;
    }
    assert(all.take(i as int) =~= all);
    r
}

/// Reads the paths in a queue.
pub fn read_queue(text: &str) -> (r: Vec<String>)
    ensures
        texts(r@) == queued(text@),
{
    let lines = split(text, Separator::Char('\n'));
    let ghost all = texts(lines@);
    let mut r: Vec<String> = Vec::new();
    let mut i: usize = 0;
    assert(all.take(0) =~= Seq::empty());
    assert(texts(r@) =~= Seq::empty());
    while i < lines.len()
        invariant
            i <= lines@.len(),
            all == texts(lines@),
            texts(r@) == paths_on(all.take(i as int)),
        decreases lines@.len() - i,
    {
        let ghost before = texts(r@);
        assert(all.take(i + 1).drop_last() =~= all.take(i as int));
        assert(all.take(i + 1).last() == lines@[i as int]@);
        let path = trim(lines[i].as_str());
        if !path.is_empty() {
            r.push(path.to_owned());
            assert(texts(r@) =~= before.push(path@));
        }
        i += 1;
    }
    assert(all.take(i as int) =~= all);
    r
}

/// What happens in a call that gathers paths.
pub enum LaunchEvent {
    /// The call begins, with these paths.
    Called(Vec<String>),
    /// The paths were added to the queue.
    Queued,
    /// The lock was there for the taking, or it was not.
    Locked(bool),
    /// The time is over.
    Waited,
    /// The queue was read and cleared away, and held this.
    Collected(String),
}

/// What is to be done next.
pub enum LaunchStep {
    /// To add this to the queue.
    Append(String),
    /// To take the lock.
    TakeLock,
    /// To wait so many milliseconds.
    Wait(u64),
    /// To read the queue and clear it and the lock away.
    Collect,
    /// To open the menu for these paths.
    Open(Vec<String>),
    /// Nothing: another call gathers.
    Leave,
}

/// Decides what is to be done next in a call that gathers paths.
pub fn explorer_launch(event: LaunchEvent) -> (r: LaunchStep)
    ensures
        match event {
            LaunchEvent::Called(paths) => if paths@.len() == 0 {
                r == LaunchStep::TakeLock
            } else {
                r matches LaunchStep::Append(text) && text@ == queue_lines(texts(paths@))
            },
            LaunchEvent::Queued => r == LaunchStep::TakeLock,
            LaunchEvent::Locked(taken) => if taken {
                r == LaunchStep::Wait(LAUNCH_WAIT)
            } else {
                r == LaunchStep::Leave
            },
            LaunchEvent::Waited => r == LaunchStep::Collect,
            LaunchEvent::Collected(text) => r matches LaunchStep::Open(paths) && texts(paths@)
                == queued(text@),
        },
{
    match event {
        LaunchEvent::Called(paths) => if paths.len() == 0 {
            LaunchStep::TakeLock
        } else {
            LaunchStep::Append(write_queue(&paths))
        },
        LaunchEvent::Queued => LaunchStep::TakeLock,
        LaunchEvent::Locked(taken) => if taken {
            LaunchStep::Wait(LAUNCH_WAIT)
        } else {
            LaunchStep::Leave
        },
        LaunchEvent::Waited => LaunchStep::Collect,
        LaunchEvent::Collected(text) => LaunchStep::Open(read_queue(text.as_str())),
    }
}

proof fn lemma_paths_on_add(a: Seq<Seq<char>>, b: Seq<Seq<char>>)
    ensures
        paths_on(a + b) == paths_on(a) + paths_on(b),
    decreases b.len(),
{
    if b.len() == 0 {
        assert(a + b =~= a);
        assert(paths_on(a) + paths_on(b) =~= paths_on(a));
    } else {
        lemma_paths_on_add(a, b.drop_last());
        assert((a + b).drop_last() =~= a + b.drop_last());
        assert((a + b).last() == b.last());
        assert(paths_on(a + b) =~= paths_on(a) + paths_on(b));
    }
}

/// What was added to the queue by one call after another is read as the paths of them all.
pub proof fn law_calls_are_gathered(a: Seq<Seq<char>>, text: Seq<char>)
    ensures
        queued(queue_lines(a) + text) == queued(queue_lines(a)) + queued(text),
{
    let sep = Separator::Char('\n');
    if a.len() == 0 {
        assert(queue_lines(a) + text =~= text);
        lemma_pieces_of_unbroken(sep, queue_lines(a));
        lemma_one_line(Seq::empty());
        assert(queued(queue_lines(a)) + queued(text) =~= queued(text));
    } else {
        let front = queue_lines(a.drop_last()) + a.last();
        assert(queue_lines(a) =~= front.push('\n'));
        lemma_pieces_split(sep, front, '\n', text);
        lemma_pieces_split(sep, front, '\n', Seq::empty());
        assert(front.push('\n') + Seq::empty() =~= front.push('\n'));
        lemma_pieces_of_unbroken(sep, Seq::<char>::empty());
        lemma_paths_on_add(pieces(sep, front), pieces(sep, text));
        lemma_paths_on_add(pieces(sep, front), seq![Seq::<char>::empty()]);
        lemma_one_line(Seq::empty());
        assert(paths_on(pieces(sep, front)) + Seq::empty() =~= paths_on(pieces(sep, front)));
    }
}

proof fn lemma_one_line(line: Seq<char>)
    ensures
        paths_on(seq![line]) == match path_on(line) {
            Some(path) => seq![path],
            None => Seq::empty(),
        },
{
    assert(seq![line].drop_last() =~= Seq::empty());
    assert(paths_on(seq![line].drop_last()) =~= Seq::empty());
    assert(paths_on(seq![line]) =~= match path_on(line) {
        Some(path) => seq![path],
        None => Seq::empty(),
    });
}

/// A path that the queue keeps as it is: on one line, with something in it, and no white space
/// at either end.
pub open spec fn keeps(path: Seq<char>) -> bool {
    &&& unbroken(Separator::Char('\n'), path)
    &&& path.len() > 0
    &&& !white(path.first())
    &&& !white(path.last())
}

/// Paths come out of the queue as they went in.
pub proof fn law_queue_round_trip(paths: Seq<Seq<char>>)
    requires
        forall|i: int| 0 <= i < paths.len() ==> keeps(#[trigger] paths[i]),
    ensures
        queued(queue_lines(paths)) == paths,
    decreases paths.len(),
{
    let sep = Separator::Char('\n');
    if paths.len() == 0 {
        lemma_pieces_of_unbroken(sep, queue_lines(paths));
        lemma_one_line(Seq::empty());
        assert(queued(queue_lines(paths)) =~= paths);
    } else {
        let before = paths.drop_last();
        let path = paths.last();
        assert(keeps(paths[paths.len() - 1]));
        assert forall|i: int| 0 <= i < before.len() implies keeps(#[trigger] before[i]) by {
            assert(before[i] == paths[i]);
        }
        law_queue_round_trip(before);
        law_calls_are_gathered(before, path.push('\n'));
        lemma_pieces_split(sep, path, '\n', Seq::empty());
        assert(path.push('\n') + Seq::empty() =~= path.push('\n'));
        lemma_pieces_of_unbroken(sep, path);
        lemma_pieces_of_unbroken(sep, Seq::<char>::empty());
        lemma_paths_on_add(seq![path], seq![Seq::<char>::empty()]);
        lemma_one_line(path);
        lemma_one_line(Seq::empty());
        lemma_trimmed_same(path);
        assert(queued(path.push('\n')) =~= seq![path]);
        assert(before + seq![path] =~= paths);
    }
}

/// Each path is put into the queue whole, on a line of its own, one after another.
pub proof fn law_queue_lines(paths: Seq<Seq<char>>, path: Seq<char>)
    ensures
        queue_lines(Seq::empty()) == Seq::<char>::empty(),
        queue_lines(paths.push(path)) == queue_lines(paths) + path.push('\n'),
{
    assert(paths.push(path).drop_last() =~= paths);
}

/// A queue is read line by line: of each line the white space around it is left away, and a line
/// of nothing else is no path.
pub proof fn law_queue_is_read_by_lines(line: Seq<char>, rest: Seq<char>)
    requires
        !line.contains('\n'),
    ensures
        blank(line) ==> queued(line) == Seq::<Seq<char>>::empty(),
        !blank(line) ==> queued(line) == seq![trimmed(line)],
        queued(line.push('\n') + rest) == queued(line) + queued(rest),
{
    let sep = Separator::Char('\n');
    assert forall|i: int| 0 <= i < line.len() implies !sep.splits_at(#[trigger] line[i]) by {
        assert(line.contains(line[i]));
    }
    lemma_pieces_of_unbroken(sep, line);
    lemma_one_line(line);
    lemma_trimmed_blank(line);
    lemma_pieces_split(sep, line, '\n', rest);
    lemma_paths_on_add(pieces(sep, line), pieces(sep, rest));
}

} // verus!
