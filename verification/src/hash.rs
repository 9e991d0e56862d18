//! Hashes of file contents, and which parts of a file are hashed.
use vstd::prelude::*;

verus! {

/// How many bytes are hashed at each end of a file, and at each sample between them.
pub const PARTIAL_HASH_SIZE: u64 = 4096;

// ---------------------------------------------------------------------------
// The hash function
// ---------------------------------------------------------------------------

/// What `xxhash_rust::xxh3::xxh3_64` makes of a sequence of bytes.
pub uninterp spec fn xxh3_64_of(bytes: Seq<u8>) -> u64;

/// `xxhash_rust::xxh3::xxh3_64`: the 64-bit hash of `bytes`, which depends on the bytes alone.
#[verifier::external_body]
pub(crate) fn xxh3_64(bytes: &Vec<u8>) -> (r: u64)
    ensures
        r == xxh3_64_of(bytes@),
{
    xxhash_rust::xxh3::xxh3_64(bytes)
}

/// The streaming hasher `xxhash_rust::xxh3::Xxh3`.
#[verifier::external_type_specification]
#[verifier::external_body]
pub struct ExXxh3(xxhash_rust::xxh3::Xxh3);

/// The bytes that a streaming hasher has been given so far.
pub uninterp spec fn absorbed(hasher: xxhash_rust::xxh3::Xxh3) -> Seq<u8>;

/// What `xxhash_rust::xxh3::Xxh3::digest` makes of the bytes that a hasher was given.
pub uninterp spec fn xxh3_digest_of(bytes: Seq<u8>) -> u64;

/// `xxhash_rust::xxh3::Xxh3::new`: a hasher that has been given nothing.
#[verifier::external_body]
fn new_hasher() -> (r: xxhash_rust::xxh3::Xxh3)
    ensures
        absorbed(r) == Seq::<u8>::empty(),
{
    xxhash_rust::xxh3::Xxh3::new()
}

/// `xxhash_rust::xxh3::Xxh3::update`: gives the hasher more bytes.
#[verifier::external_body]
fn update_hasher(hasher: &mut xxhash_rust::xxh3::Xxh3, bytes: &Vec<u8>)
    ensures
        absorbed(*final(hasher)) == absorbed(*old(hasher)) + bytes@,
{
    hasher.update(bytes)
}

/// `xxhash_rust::xxh3::Xxh3::digest`: the 64-bit hash of all bytes that the hasher was given, in
/// whatever pieces.
#[verifier::external_body]
fn digest_of_hasher(hasher: &xxhash_rust::xxh3::Xxh3) -> (r: u64)
    ensures
        r == xxh3_digest_of(absorbed(*hasher)),
{
    hasher.digest()
}

// ---------------------------------------------------------------------------
// The ends of a file
// ---------------------------------------------------------------------------

/// How many bytes of a file of that size are read at its start.
pub open spec fn head_bytes(size: u64) -> int {
    if size < PARTIAL_HASH_SIZE {
        size as int
    } else {
        PARTIAL_HASH_SIZE as int
    }
}

/// How many bytes of a file of that size are read at its start.
pub fn head_len(size: u64) -> (r: usize)
    ensures
        r == head_bytes(size),
{
    if size < PARTIAL_HASH_SIZE {
        size as usize
    } else {
        PARTIAL_HASH_SIZE as usize
    }
}

/// Whether a file of that size has an end that is read apart from its start.
pub fn has_tail(size: u64) -> (r: bool)
    ensures
        r == (size > PARTIAL_HASH_SIZE),
{
    size > PARTIAL_HASH_SIZE
}

/// What is hashed of the start of a file, `None` where it could not be read.
pub fn head_hash(head: &Option<Vec<u8>>) -> (r: Option<u64>)
    ensures
        match *head {
            Some(h) => r == Some(xxh3_64_of(h@)),
            None => r is None,
        },
{
    match head {
        Some(h) => Some(xxh3_64(h)),
        None => None,
    }
}

/// What is hashed of the two ends of a file: its start, and behind it its end where the file is
/// longer than the start. There is nothing to hash where one of them could not be read.
pub open spec fn ends_of(size: u64, head: Option<Seq<u8>>, tail: Option<Seq<u8>>) -> Option<Seq<u8>> {
    match head {
        Some(h) => if size > PARTIAL_HASH_SIZE {
            match tail {
                Some(t) => Some(h + t),
                None => None,
            }
        } else {
            Some(h)
        },
        None => None,
    }
}

/// What bytes that were perhaps read stand for.
pub open spec fn bytes_view(bytes: Option<Vec<u8>>) -> Option<Seq<u8>> {
    match bytes {
        Some(b) => Some(b@),
        None => None,
    }
}

/// Puts together what is hashed of the two ends of a file.
pub fn partial_input(size: u64, head: &Option<Vec<u8>>, tail: &Option<Vec<u8>>) -> (r: Option<
    Vec<u8>,
>)
    ensures
        bytes_view(r) == ends_of(size, bytes_view(*head), bytes_view(*tail)),
{
    let h = match head {
        Some(h) => h,
        None => {
            return None;
        },
    };
    let mut data: Vec<u8> = Vec::new();
    append(&mut data, h);
    assert(data@ =~= h@);
    if size > PARTIAL_HASH_SIZE {
        match tail {
            Some(t) => {
                append(&mut data, t);
                Some(data)
            },
            None => None,
        }
    } else {
        Some(data)
    }
}

fn append(out: &mut Vec<u8>, more: &Vec<u8>)
    ensures
        final(out)@ == old(out)@ + more@,
{
    let mut i: usize = 0;
    while i < more.len()
        invariant
            i <= more@.len(),
            out@ == old(out)@ + more@.take(i as int),
        decreases more@.len() - i,
    {
        out.push(more[i]);
        i += 1;
        assert(out@ =~= old(out)@ + more@.take(i as int));
    }
    assert(more@.take(i as int) =~= more@);
}

/// The hash of the two ends of a file, which is that of all of it where the file is no longer
/// than both.
pub fn partial_hash(size: u64, head: &Option<Vec<u8>>, tail: &Option<Vec<u8>>) -> (r: Option<u64>)
    ensures
        match ends_of(size, bytes_view(*head), bytes_view(*tail)) {
            Some(bytes) => r == Some(xxh3_64_of(bytes)),
            None => r is None,
        },
{
    match partial_input(size, head, tail) {
        Some(data) => Some(xxh3_64(&data)),
        None => None,
    }
}

/// What is read at the start of a file with that content.
pub open spec fn content_head(content: Seq<u8>) -> Seq<u8> {
    content.take(head_bytes(content.len() as u64))
}

/// What is read at the end of a file with that content.
pub open spec fn content_tail(content: Seq<u8>) -> Seq<u8> {
    content.skip(content.len() - PARTIAL_HASH_SIZE)
}

/// Contents that agree at both ends have the same hash of their ends, whatever lies between.
pub proof fn partial_hash_ignores_the_middle(a: Seq<u8>, b: Seq<u8>)
    requires
        a.len() == b.len() <= u64::MAX,
        forall|i: int|
            0 <= i < a.len() && (i < PARTIAL_HASH_SIZE || i >= a.len() - PARTIAL_HASH_SIZE)
                ==> a[i] == b[i],
    ensures
        ends_of(a.len() as u64, Some(content_head(a)), Some(content_tail(a))) == ends_of(
            b.len() as u64,
            Some(content_head(b)),
            Some(content_tail(b)),
        ),
{
    assert(content_head(a) =~= content_head(b));
    if a.len() > PARTIAL_HASH_SIZE {
        assert(content_tail(a) =~= content_tail(b));
    }
}

/// Of a file that is no longer than its two ends, the ends tell the whole content.
pub proof fn short_files_are_hashed_whole(a: Seq<u8>, b: Seq<u8>)
    requires
        a.len() == b.len() <= 2 * PARTIAL_HASH_SIZE,
        ends_of(a.len() as u64, Some(content_head(a)), Some(content_tail(a))) == ends_of(
            b.len() as u64,
            Some(content_head(b)),
            Some(content_tail(b)),
        ),
    ensures
        a == b,
{
    let ha = content_head(a);
    let hb = content_head(b);
    if a.len() <= PARTIAL_HASH_SIZE {
        assert(ha =~= a);
        assert(hb =~= b);
    } else {
        let ta = content_tail(a);
        let tb = content_tail(b);
        assert(ha + ta == hb + tb);
        assert forall|i: int| 0 <= i < a.len() implies a[i] == b[i] by {
            if i < PARTIAL_HASH_SIZE {
                assert((ha + ta)[i] == a[i]);
                assert((hb + tb)[i] == b[i]);
            } else {
                let j = i - (a.len() - PARTIAL_HASH_SIZE) + PARTIAL_HASH_SIZE;
                assert((ha + ta)[j] == a[i]);
                assert((hb + tb)[j] == b[i]);
            }
        }
        assert(a =~= b);
    }
}

// ---------------------------------------------------------------------------
// All of a file
// ---------------------------------------------------------------------------

/// Hashes a file that is read piece by piece.
pub struct FullHasher {
    hasher: xxhash_rust::xxh3::Xxh3,
}

impl View for FullHasher {
    type V = Seq<u8>;

    /// The bytes that were read so far.
    closed spec fn view(&self) -> Seq<u8> {
        absorbed(self.hasher)
    }
}

impl FullHasher {
    /// A hasher for a file of which nothing was read yet.
    pub fn new() -> (r: FullHasher)
        ensures
            r@ == Seq::<u8>::empty(),
    {
        FullHasher { hasher: new_hasher() }
    }

    /// Takes in the next piece of the file.
    pub fn update(&mut self, piece: &Vec<u8>)
        ensures
            final(self)@ == old(self)@ + piece@,
    {
        update_hasher(&mut self.hasher, piece);
    }

    /// The hash of the file.
    pub fn digest(&self) -> (r: u64)
        ensures
            r == xxh3_digest_of(self@),
    {
        digest_of_hasher(&self.hasher)
    }
}

// ---------------------------------------------------------------------------
// Samples
// ---------------------------------------------------------------------------

/// How many bytes lie between the two ends of a file.
pub open spec fn middle_len(size: int) -> int {
    if size > 2 * PARTIAL_HASH_SIZE {
        size - 2 * PARTIAL_HASH_SIZE
    } else {
        0
    }
}

/// How many samples are taken: those that were asked for, but no more than fit side by side
/// between the two ends.
pub open spec fn sample_count(size: int, wanted: int) -> int {
    let fitting = middle_len(size) / PARTIAL_HASH_SIZE as int;
    if wanted < fitting {
        wanted
    } else {
        fitting
    }
}

/// Where sample `i` of `count` starts: in the middle of its share of what lies between the two
/// ends.
pub open spec fn sample_start(size: int, count: int, i: int) -> int {
    let share = middle_len(size) / count;
    PARTIAL_HASH_SIZE + i * share + (share - PARTIAL_HASH_SIZE) / 2
}

/// The places where the samples start.
pub open spec fn sample_starts(size: int, wanted: int) -> Seq<int> {
    let count = sample_count(size, wanted);
    Seq::new(count as nat, |i: int| sample_start(size, count, i))
}

proof fn lemma_share(middle: int, count: int, i: int)
    requires
        0 <= i < count,
        count <= middle / (PARTIAL_HASH_SIZE as int),
    ensures
        PARTIAL_HASH_SIZE <= middle / count,
        i * (middle / count) >= 0,
        (i + 1) * (middle / count) == i * (middle / count) + middle / count,
        (i + 1) * (middle / count) <= middle,
{
    let share = middle / count;
    assert(PARTIAL_HASH_SIZE <= share) by (nonlinear_arith)
        requires
            0 < count,
            count <= middle / 4096,
            share == middle / count,
            PARTIAL_HASH_SIZE == 4096,
    ;
    assert(i * share >= 0) by (nonlinear_arith)
        requires
            i >= 0,
            share >= 0,
    ;
    assert((i + 1) * share == i * share + share) by (nonlinear_arith);
    assert((i + 1) * share <= middle) by (nonlinear_arith)
        requires
            0 <= i < count,
            share == middle / count,
            middle >= 0,
            share >= 0,
    ;
}

/// Every sample lies between the two ends of the file.
pub proof fn samples_lie_in_the_middle(size: int, wanted: int, i: int)
    requires
        0 <= i < sample_starts(size, wanted).len(),
        wanted >= 0,
    ensures
        PARTIAL_HASH_SIZE <= sample_starts(size, wanted)[i],
        sample_starts(size, wanted)[i] + PARTIAL_HASH_SIZE <= size - PARTIAL_HASH_SIZE,
{
    lemma_share(middle_len(size), sample_count(size, wanted), i);
}

/// No two samples overlap.
pub proof fn samples_are_apart(size: int, wanted: int, i: int, j: int)
    requires
        0 <= i < j < sample_starts(size, wanted).len(),
        wanted >= 0,
    ensures
        sample_starts(size, wanted)[i] + PARTIAL_HASH_SIZE <= sample_starts(size, wanted)[j],
{
    let middle = middle_len(size);
    let count = sample_count(size, wanted);
    let share = middle / count;
    lemma_share(middle, count, i);
    lemma_share(middle, count, j);
    assert((i + 1) * share <= j * share) by (nonlinear_arith)
        requires
            i < j,
            share >= 0,
    ;
}

/// No more samples are taken than were asked for, and no more than fit; where as many were asked
/// for as fit, what is left of the middle has no room for one more.
pub proof fn samples_are_capped(size: int, wanted: int)
    requires
        wanted >= 0,
        size >= 0,
    ensures
        sample_starts(size, wanted).len() <= wanted,
        sample_starts(size, wanted).len() * PARTIAL_HASH_SIZE <= middle_len(size),
        wanted >= middle_len(size) / (PARTIAL_HASH_SIZE as int) ==> middle_len(size)
            - sample_starts(size, wanted).len() * PARTIAL_HASH_SIZE < PARTIAL_HASH_SIZE,
{
}

/// What is read of a file for its final comparison.
#[derive(Debug, PartialEq, Eq)]
pub enum VerifyPlan {
    /// Nothing more: its two ends are all of it.
    Nothing,
    /// All of it.
    Whole,
    /// A sample at each of these places.
    Samples(Vec<u64>),
}

/// What a plan stands for.
pub enum PlanView {
    Nothing,
    Whole,
    Samples(Seq<int>),
}

impl View for VerifyPlan {
    type V = PlanView;

    open spec fn view(&self) -> PlanView {
        match self {
            VerifyPlan::Nothing => PlanView::Nothing,
            VerifyPlan::Whole => PlanView::Whole,
            VerifyPlan::Samples(v) => PlanView::Samples(v@.map_values(|x: u64| x as int)),
        }
    }
}

/// What is read for the final comparison of files of that size: nothing of those whose two ends
/// are all of them; samples where some were asked for and one fits; and else the whole file.
pub open spec fn plan_of(size: u64, fast: Option<u32>) -> PlanView {
    if size <= 2 * PARTIAL_HASH_SIZE {
        PlanView::Nothing
    } else {
        match fast {
            Some(n) => if sample_count(size as int, n as int) > 0 {
                PlanView::Samples(sample_starts(size as int, n as int))
            } else {
                PlanView::Whole
            },
            None => PlanView::Whole,
        }
    }
}

/// Decides what is read for the final comparison of files of that size.
pub fn verify_plan(size: u64, fast: Option<u32>) -> (r: VerifyPlan)
    ensures
        r@ == plan_of(size, fast),
{
    if size <= 2 * PARTIAL_HASH_SIZE {
        return VerifyPlan::Nothing;
    }
    let wanted: u64 = match fast {
        Some(n) => n as u64,
        None => {
            return VerifyPlan::Whole;
        },
    };
    let middle: u64 = size - 2 * PARTIAL_HASH_SIZE;
    let fitting: u64 = middle / PARTIAL_HASH_SIZE;
    let count: u64 = if wanted < fitting {
        wanted
    } else {
        fitting
    };
    if count == 0 {
        return VerifyPlan::Whole;
    }
    let share: u64 = middle / count;
    let mut starts: Vec<u64> = Vec::new();
    let mut i: u64 = 0;
    while i < count
        invariant
            i <= count,
            starts@.len() == i,
            size > 2 * PARTIAL_HASH_SIZE,
            middle == middle_len(size as int),
            count == sample_count(size as int, wanted as int),
            share == middle as int / count as int,
            count <= middle as int / (PARTIAL_HASH_SIZE as int),
            forall|j: int|
                0 <= j < i ==> #[trigger] starts@[j] == sample_start(size as int, count as int, j),
        decreases count - i,
    {
        proof {
            lemma_share(middle as int, count as int, i as int);
        }
        starts.push(PARTIAL_HASH_SIZE + i * share + (share - PARTIAL_HASH_SIZE) / 2);
        i += 1;
    }
    assert(starts@.map_values(|x: u64| x as int) =~= sample_starts(size as int, wanted as int));
    VerifyPlan::Samples(starts)
}

/// The samples one behind the other.
pub open spec fn joined(samples: Seq<Vec<u8>>) -> Seq<u8>
    decreases samples.len(),
{
    if samples.len() == 0 {
        seq![]
    } else {
        joined(samples.drop_last()) + samples.last()@
    }
}

/// The hash of the samples of a file.
pub fn sample_hash(samples: &Vec<Vec<u8>>) -> (r: u64)
    ensures
        r == xxh3_64_of(joined(samples@)),
{
    let mut data: Vec<u8> = Vec::new();
    let mut i: usize = 0;
    assert(samples@.take(0) =~= Seq::<Vec<u8>>::empty());
    while i < samples.len()
        invariant
            i <= samples@.len(),
            data@ == joined(samples@.take(i as int)),
        decreases samples@.len() - i,
    {
        assert(samples@.take(i + 1).drop_last() =~= samples@.take(i as int));
        append(&mut data, &samples[i]);
        i += 1;
    }
    assert(samples@.take(i as int) =~= samples@);
    xxh3_64(&data)
}

} // verus!
