use vstd::prelude::*;

verus! {

/// Something found inside a directory whose total size is being computed.
pub enum ChildSize {
    /// A subdirectory, with its own total.
    Directory(u64),
    /// A subdirectory whose total could not be computed.
    UnreadableDirectory,
    /// A file, with its length where its metadata could be read.
    File(Option<u64>),
    /// Anything else, which counts for nothing.
    Other,
}

/// Why the total of a directory is not known.
#[derive(Debug, PartialEq, Eq, Structural)]
pub enum SizeFailure {
    /// A subdirectory could not be read.
    Unreadable,
    /// The total does not fit in a `u64`.
    Overflow,
}

/// The bytes that one child adds to the total.
pub open spec fn child_bytes(c: ChildSize) -> nat {
    match c {
        ChildSize::Directory(n) => n as nat,
        ChildSize::File(Some(n)) => n as nat,
        _ => 0,
    }
}

/// The outcome of adding up the children in order: the first unreadable
/// subdirectory, or the first child that takes the running total past
/// `u64::MAX`, ends the sum with its failure.
pub open spec fn size_outcome(cs: Seq<ChildSize>) -> Result<nat, SizeFailure>
    decreases cs.len(),
{
    if cs.len() == 0 {
        Ok(0)
    } else {
        match size_outcome(cs.drop_last()) {
            Err(e) => Err(e),
            Ok(t) => match cs.last() {
                ChildSize::UnreadableDirectory => Err(SizeFailure::Unreadable),
                c => if t + child_bytes(c) > u64::MAX {
                    Err(SizeFailure::Overflow)
                } else {
                    Ok(t + child_bytes(c))
                },
            },
        }
    }
}

/// The size of a directory: the lengths of its files and the totals of its
/// subdirectories, added up in order (see `size_outcome`).
pub fn directory_size(children: &Vec<ChildSize>) -> (r: Result<u64, SizeFailure>)
    ensures
        r == (match size_outcome(children@) {
            Ok(t) => Ok(t as u64),
            Err(e) => Err(e),
        }),
{
    let mut size: u64 = 0;
    let mut i: usize = 0;
    while i < children.len()
        invariant
            i <= children@.len(),
            size_outcome(children@.take(i as int)) == Ok::<nat, SizeFailure>(size as nat),
        decreases children@.len() - i,
    {
        proof {
            assert(children@.take(i + 1).drop_last() == children@.take(i as int));
            assert(children@.take(i + 1).last() == children@[i as int]);
        }
        let add: u64 = match &children[i] {
            ChildSize::Directory(n) => *n,
            ChildSize::File(Some(n)) => *n,
            ChildSize::UnreadableDirectory => {
                proof {
                    lemma_failure_stays(children@, i as int + 1);
                }
                return Err(SizeFailure::Unreadable);
            },
            _ => 0,
        };
        match size.checked_add(add) {
            Some(s) => {
                size = s;
            },
            None => {
                proof {
                    lemma_failure_stays(children@, i as int + 1);
                }
                return Err(SizeFailure::Overflow);
            },
        }
        i = i + 1;
    }
    proof {
        assert(children@.take(children@.len() as int) == children@);
    }
    Ok(size)
}

/// The plain sum of what the children hold: the totals of the subdirectories
/// and the lengths of the files whose length is known.
pub open spec fn plain_sum(cs: Seq<ChildSize>) -> int
    decreases cs.len(),
{
    if cs.len() == 0 {
        0
    } else {
        plain_sum(cs.drop_last()) + match cs.last() {
            ChildSize::Directory(n) => n as int,
            ChildSize::File(Some(n)) => n as int,
            _ => 0int,
        }
    }
}

/// No subdirectory among the children is unreadable.
pub open spec fn all_readable(cs: Seq<ChildSize>) -> bool {
    forall|i: int| 0 <= i < cs.len() ==> !(#[trigger] cs[i] is UnreadableDirectory)
}

/// Where every subdirectory could be read, the size of a directory is the
/// plain sum of what it holds whenever that sum fits in a `u64`, and an
/// overflow otherwise.
pub proof fn lemma_size_is_plain_sum(cs: Seq<ChildSize>)
    requires
        all_readable(cs),
    ensures
        plain_sum(cs) <= u64::MAX ==> size_outcome(cs) == Ok::<nat, SizeFailure>(plain_sum(cs) as nat),
        plain_sum(cs) > u64::MAX ==> size_outcome(cs) == Err::<nat, SizeFailure>(SizeFailure::Overflow),
    decreases cs.len(),
{
    if cs.len() > 0 {
        let front = cs.drop_last();
        assert(all_readable(front)) by {
            assert forall|i: int| 0 <= i < front.len() implies !(#[trigger] front[i] is UnreadableDirectory) by {
                assert(front[i] == cs[i]);
            }
        }
        lemma_size_is_plain_sum(front);
        lemma_plain_sum_nonneg(cs);
        lemma_plain_sum_nonneg(front);
        assert(!(cs[cs.len() - 1] is UnreadableDirectory));
        assert(cs.last() == cs[cs.len() - 1]);
        assert(child_bytes(cs.last()) == plain_sum(cs) - plain_sum(front));
        if plain_sum(front) <= u64::MAX {
            assert(size_outcome(front) == Ok::<nat, SizeFailure>(plain_sum(front) as nat));
        }
    }
}

proof fn lemma_plain_sum_nonneg(cs: Seq<ChildSize>)
    ensures
        plain_sum(cs) >= 0,
        cs.len() > 0 ==> plain_sum(cs) >= plain_sum(cs.drop_last()),
    decreases cs.len(),
{
    if cs.len() > 0 {
        lemma_plain_sum_nonneg(cs.drop_last());
    }
}

/// An unreadable subdirectory makes the size unknown as unreadable, unless
/// the files and subdirectories before it already overflow.
pub proof fn lemma_unreadable_fails(cs: Seq<ChildSize>, i: int)
    requires
        0 <= i < cs.len(),
        cs[i] is UnreadableDirectory,
        all_readable(cs.take(i)),
        plain_sum(cs.take(i)) <= u64::MAX,
    ensures
        size_outcome(cs) == Err::<nat, SizeFailure>(SizeFailure::Unreadable),
{
    lemma_size_is_plain_sum(cs.take(i));
    assert(cs.take(i + 1).drop_last() == cs.take(i));
    assert(cs.take(i + 1).last() == cs[i]);
    lemma_failure_stays(cs, i + 1);
}

/// Once the sum has failed, later children do not change the outcome.
proof fn lemma_failure_stays(cs: Seq<ChildSize>, k: int)
    requires
        0 <= k <= cs.len(),
        size_outcome(cs.take(k)) is Err,
    ensures
        size_outcome(cs) == size_outcome(cs.take(k)),
    decreases cs.len() - k,
{
    if k < cs.len() {
        assert(cs.take(k + 1).drop_last() == cs.take(k));
        lemma_failure_stays(cs, k + 1);
    } else {
        assert(cs.take(k) == cs);
    }
}

} // verus!
