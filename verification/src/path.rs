//! File paths: the components that they stand for, and how they are written.
use vstd::prelude::*;

use crate::order::{departs_below, lemma_lex_total, lex, lex_before, total_order};
use crate::text::{decode_lossy, lossy_text};

verus! {

/// The byte that separates components.
pub const SLASH: u8 = 47;

/// The byte that `.` and `..` are made of.
pub const DOT: u8 = 46;

/// One component of a path.
#[derive(Debug)]
pub enum Component {
    /// The leading `/` of an absolute path.
    RootDir,
    /// A leading `.`.
    CurDir,
    /// `..`.
    ParentDir,
    /// A name, as the bytes that the file system holds.
    Normal(Vec<u8>),
}

/// What a component stands for.
pub enum Step {
    RootDir,
    CurDir,
    ParentDir,
    Normal(Seq<u8>),
}

impl View for Component {
    type V = Step;

    open spec fn view(&self) -> Step {
        match self {
            Component::RootDir => Step::RootDir,
            Component::CurDir => Step::CurDir,
            Component::ParentDir => Step::ParentDir,
            Component::Normal(name) => Step::Normal(name@),
        }
    }
}

/// A path as it is written. Two paths are the same where their components are, however they are
/// written: doubled separators, one at the end and a `.` in the middle make no difference but to
/// what is shown.
#[derive(Debug)]
pub struct FilePath {
    pub written: Vec<u8>,
}

/// A path is viewed as the sequence of its components.
impl View for FilePath {
    type V = Seq<Step>;

    open spec fn view(&self) -> Seq<Step> {
        path_of_bytes(self.written@)
    }
}

/// A path with the way in which it is written.
pub struct PathView {
    pub steps: Seq<Step>,
    pub written: Seq<u8>,
}

impl FilePath {
    /// The path with the way in which it is written.
    pub open spec fn full(&self) -> PathView {
        written_path(self.written@)
    }
}

/// The path that is written as these bytes.
pub open spec fn written_path(b: Seq<u8>) -> PathView {
    PathView { steps: path_of_bytes(b), written: b }
}

/// What some components stand for.
pub open spec fn components_view(components: Seq<Component>) -> Seq<Step> {
    components.map_values(|c: Component| c@)
}

// ---------------------------------------------------------------------------
// Order
// ---------------------------------------------------------------------------

/// Bytes in their numeric order.
pub open spec fn byte_lt() -> spec_fn(u8, u8) -> bool {
    |x: u8, y: u8| x < y
}

/// Kinds of components in their order.
pub open spec fn step_rank(s: Step) -> int {
    match s {
        Step::RootDir => 0,
        Step::CurDir => 1,
        Step::ParentDir => 2,
        Step::Normal(_) => 3,
    }
}

/// Components in their order: by kind, then by name.
pub open spec fn step_lt() -> spec_fn(Step, Step) -> bool {
    |x: Step, y: Step|
        step_rank(x) < step_rank(y) || match (x, y) {
            (Step::Normal(a), Step::Normal(b)) => lex_before(a, b, byte_lt()),
            _ => false,
        }
}

/// Paths in lexicographic order of their components.
pub open spec fn path_before(a: Seq<Step>, b: Seq<Step>) -> bool {
    lex_before(a, b, step_lt())
}

proof fn lemma_step_order()
    ensures
        total_order(step_lt()),
{
    let lt = step_lt();
    let names = lex(byte_lt());
    assert(total_order(byte_lt()));
    lemma_lex_total(byte_lt());
    assert forall|x: Step, y: Step| #[trigger] lt(x, y) implies !lt(y, x) by {
        if let (Step::Normal(a), Step::Normal(b)) = (x, y) {
            assert(names(a, b));
            assert(!names(b, a));
        }
    }
    assert forall|x: Step, y: Step, z: Step| #[trigger] lt(x, y) && #[trigger] lt(y, z) implies lt(
        x,
        z,
    ) by {
        if let (Step::Normal(a), Step::Normal(c)) = (x, z) {
            if let Step::Normal(b) = y {
                assert(names(a, b));
                assert(names(b, c));
                assert(names(a, c));
            }
        }
    }
    assert forall|x: Step, y: Step| x == y || #[trigger] lt(x, y) || lt(y, x) by {
        if let (Step::Normal(a), Step::Normal(b)) = (x, y) {
            assert(a == b || names(a, b) || names(b, a));
        }
    }
}

/// Paths are totally ordered.
pub proof fn lemma_path_order()
    ensures
        total_order(lex(step_lt())),
{
    lemma_step_order();
    lemma_lex_total(step_lt());
}

fn bytes_are_before(a: &Vec<u8>, b: &Vec<u8>) -> (r: bool)
    ensures
        r == lex_before(a@, b@, byte_lt()),
{
    let mut i: usize = 0;
    while i < a.len() && i < b.len() && a[i] == b[i]
        invariant
            i <= a@.len(),
            i <= b@.len(),
            forall|j: int| 0 <= j < i ==> a@[j] == b@[j],
        decreases a@.len() - i,
    {
        i += 1;
    }
    let r: bool = i < b.len() && (i == a.len() || a[i] < b[i]);
    proof {
        if r {
            assert(departs_below(a@, b@, i as int, byte_lt()));
        } else {
            assert forall|k: int| !#[trigger] departs_below(a@, b@, k, byte_lt()) by {
                if departs_below(a@, b@, k, byte_lt()) {
                    if k < i {
                        assert(a@[k] == b@[k]);
                    } else if i < k {
                        assert(a@[i as int] == b@[i as int]);
                    }
                }
            }
        }
    }
    r
}

fn bytes_equal(a: &Vec<u8>, b: &Vec<u8>) -> (r: bool)
    ensures
        r == (a@ == b@),
{
    if a.len() != b.len() {
        return false;
    }
    let mut i: usize = 0;
    while i < a.len()
        invariant
            i <= a@.len(),
            a@.len() == b@.len(),
            forall|j: int| 0 <= j < i ==> a@[j] == b@[j],
        decreases a@.len() - i,
    {
        if a[i] != b[i] {
            return false;
        }
        i += 1;
    }
    assert(a@ =~= b@);
    true
}

impl Component {
    fn rank(&self) -> (r: u8)
        ensures
            r == step_rank(self@),
    {
        match self {
            Component::RootDir => 0,
            Component::CurDir => 1,
            Component::ParentDir => 2,
            Component::Normal(_) => 3,
        }
    }

    fn is_before(&self, other: &Component) -> (r: bool)
        ensures
            r == step_lt()(self@, other@),
    {
        match (self, other) {
            (Component::Normal(a), Component::Normal(b)) => bytes_are_before(a, b),
            _ => self.rank() < other.rank(),
        }
    }

    fn equals(&self, other: &Component) -> (r: bool)
        ensures
            r == (self@ == other@),
    {
        match (self, other) {
            (Component::Normal(a), Component::Normal(b)) => bytes_equal(a, b),
            _ => self.rank() == other.rank(),
        }
    }
}

impl Clone for Component {
    fn clone(&self) -> (r: Self)
        ensures
            r@ == self@,
    {
        match self {
            Component::RootDir => Component::RootDir,
            Component::CurDir => Component::CurDir,
            Component::ParentDir => Component::ParentDir,
            Component::Normal(name) => {
                let copy = name.clone();
                assert(copy@ =~= name@);
                Component::Normal(copy)
            },
        }
    }
}

impl Clone for FilePath {
    fn clone(&self) -> (r: Self)
        ensures
            r.written@ == self.written@,
            r@ == self@,
    {
        let written = self.written.clone();
        assert(written@ =~= self.written@);
        FilePath { written }
    }
}

// ---------------------------------------------------------------------------
// Reading and writing paths
// ---------------------------------------------------------------------------

/// Where the first separator in `b` stands, or its length where there is none.
pub open spec fn slash_at(b: Seq<u8>) -> int
    decreases b.len(),
{
    if b.len() == 0 || b[0] == SLASH {
        0
    } else {
        1 + slash_at(b.skip(1))
    }
}

/// The component that the text between two separators stands for. Nothing and `.` stand for none,
/// but for a `.` that leads a relative path.
pub open spec fn piece_steps(piece: Seq<u8>, leading: bool) -> Seq<Step> {
    if piece.len() == 0 {
        seq![]
    } else if piece == seq![DOT] {
        if leading {
            seq![Step::CurDir]
        } else {
            seq![]
        }
    } else if piece == seq![DOT, DOT] {
        seq![Step::ParentDir]
    } else {
        seq![Step::Normal(piece)]
    }
}

/// The components of a path that does not begin with a separator, or of what follows one.
pub open spec fn relative_steps(b: Seq<u8>, leading: bool) -> Seq<Step>
    decreases b.len(),
{
    if b.len() == 0 {
        seq![]
    } else {
        let k = slash_at(b);
        if 0 <= k < b.len() {
            piece_steps(b.take(k), leading) + relative_steps(b.skip(k + 1), false)
        } else {
            piece_steps(b, leading)
        }
    }
}

/// The components of a path that is written as bytes.
pub open spec fn path_of_bytes(b: Seq<u8>) -> Seq<Step> {
    if b.len() > 0 && b[0] == SLASH {
        seq![Step::RootDir] + relative_steps(b.skip(1), false)
    } else {
        relative_steps(b, true)
    }
}

/// How a component is written.
pub open spec fn step_bytes(s: Step) -> Seq<u8> {
    match s {
        Step::RootDir => seq![SLASH],
        Step::CurDir => seq![DOT],
        Step::ParentDir => seq![DOT, DOT],
        Step::Normal(name) => name,
    }
}

/// What is shown of a path that is written as these bytes.
pub open spec fn shown_text(b: Seq<u8>) -> Seq<char> {
    lossy_text(b)
}

/// The name of a component, as it is shown.
pub open spec fn step_text(s: Step) -> Seq<char> {
    lossy_text(step_bytes(s))
}

proof fn lemma_slash_at(b: Seq<u8>, k: int)
    requires
        0 <= k <= b.len(),
        forall|j: int| 0 <= j < k ==> b[j] != SLASH,
        k == b.len() || b[k] == SLASH,
    ensures
        slash_at(b) == k,
    decreases k,
{
    if k > 0 {
        assert(b[0] != SLASH);
        let rest = b.skip(1);
        assert forall|j: int| 0 <= j < k - 1 implies rest[j] != SLASH by {
            assert(rest[j] == b[j + 1]);
        }
        lemma_slash_at(rest, k - 1);
    }
}

fn push_bytes(out: &mut Vec<u8>, more: &Vec<u8>)
    ensures
        final(out)@ == old(out)@ + more@,
{
    let ghost before = out@;
    let mut i: usize = 0;
    while i < more.len()
        invariant
            i <= more@.len(),
            out@ == before + more@.take(i as int),
        decreases more@.len() - i,
    {
        out.push(more[i]);
        i += 1;
        assert(out@ =~= before + more@.take(i as int));
    }
    assert(more@.take(more@.len() as int) =~= more@);
}

fn byte_range(b: &Vec<u8>, from: usize, to: usize) -> (r: Vec<u8>)
    requires
        from <= to <= b@.len(),
    ensures
        r@ == b@.subrange(from as int, to as int),
{
    let mut r: Vec<u8> = Vec::new();
    let mut i: usize = from;
    while i < to
        invariant
            from <= i <= to <= b@.len(),
            r@ == b@.subrange(from as int, i as int),
        decreases to - i,
    {
        r.push(b[i]);
        i += 1;
        assert(r@ =~= b@.subrange(from as int, i as int));
    }
    r
}

fn piece_component(b: &Vec<u8>, from: usize, to: usize, leading: bool) -> (r: Option<Component>)
    requires
        from <= to <= b@.len(),
    ensures
        match r {
            Some(c) => piece_steps(b@.subrange(from as int, to as int), leading) == seq![c@],
            None => piece_steps(b@.subrange(from as int, to as int), leading) == Seq::<Step>::empty(),
        },
{
    let ghost piece = b@.subrange(from as int, to as int);
    let len: usize = to - from;
    if len == 0 {
        None
    } else if len == 1 && b[from] == DOT {
        assert(piece =~= seq![DOT]);
        if leading {
            Some(Component::CurDir)
        } else {
            None
        }
    } else if len == 2 && b[from] == DOT && b[from + 1] == DOT {
        assert(piece =~= seq![DOT, DOT]);
        assert(piece.len() == 2);
        assert(piece != seq![DOT]);
        Some(Component::ParentDir)
    } else {
        assert(piece != seq![DOT]) by {
            if piece == seq![DOT] {
                assert(piece.len() == 1);
                assert(piece[0] == b@[from as int]);
            }
        }
        assert(piece != seq![DOT, DOT]) by {
            if piece == seq![DOT, DOT] {
                assert(piece.len() == 2);
                assert(piece[0] == b@[from as int] && piece[1] == b@[from + 1]);
            }
        }
        let name = byte_range(b, from, to);
        Some(Component::Normal(name))
    }
}

impl FilePath {
    /// The path without components.
    pub fn empty() -> (r: FilePath)
        ensures
            r.written@ == Seq::<u8>::empty(),
            r@ == Seq::<Step>::empty(),
    {
        FilePath { written: Vec::new() }
    }

    /// Takes a path apart.
    pub fn components(&self) -> (r: Vec<Component>)
        ensures
            components_view(r@) == self@,
            r@.len() == self@.len(),
    {
        let b = &self.written;
        let n: usize = b.len();
        let mut r: Vec<Component> = Vec::new();
        let mut from: usize = 0;
        let mut leading: bool = true;
        if n > 0 && b[0] == SLASH {
            r.push(Component::RootDir);
            from = 1;
            leading = false;
            assert(components_view(r@) =~= seq![Step::RootDir]);
        }
        assert(b@.skip(0) =~= b@);
        assert(path_of_bytes(b@) =~= components_view(r@) + relative_steps(
            b@.skip(from as int),
            leading,
        ));
        while from < n
            invariant
                n == b@.len(),
                from <= n,
                path_of_bytes(b@) == components_view(r@) + relative_steps(
                    b@.skip(from as int),
                    leading,
                ),
            decreases n - from,
        {
            let mut to: usize = from;
            while to < n && b[to] != SLASH
                invariant
                    n == b@.len(),
                    from <= to <= n,
                    forall|j: int| from <= j < to ==> b@[j] != SLASH,
                decreases n - to,
            {
                to += 1;
            }
            let ghost rest = b@.skip(from as int);
            let ghost before = components_view(r@);
            proof {
                assert forall|j: int| 0 <= j < to - from implies rest[j] != SLASH by {
                    assert(rest[j] == b@[from + j]);
                }
                lemma_slash_at(rest, to - from);
                assert(rest.take(to - from) =~= b@.subrange(from as int, to as int));
            }
            if let Some(c) = piece_component(b, from, to, leading) {
                r.push(c);
                assert(components_view(r@) =~= before.push(c@));
            }
            assert(components_view(r@) =~= before + piece_steps(
                b@.subrange(from as int, to as int),
                leading,
            ));
            if to < n {
                assert(rest.skip(to - from + 1) =~= b@.skip(to + 1));
                from = to + 1;
            } else {
                assert(rest =~= rest.take(to - from));
                assert(b@.skip(n as int) =~= Seq::<u8>::empty());
                from = n;
            }
            leading = false;
            assert(path_of_bytes(b@) =~= components_view(r@) + relative_steps(
                b@.skip(from as int),
                leading,
            ));
        }
        assert(path_of_bytes(b@) =~= components_view(r@));
        r
    }

    /// The path that is written as these bytes.
    pub fn from_bytes(b: &Vec<u8>) -> (r: FilePath)
        ensures
            r.written@ == b@,
            r@ == path_of_bytes(b@),
    {
        let written = b.clone();
        assert(written@ =~= b@);
        FilePath { written }
    }

    /// The path that is written as this text.
    pub fn from_text(s: &str) -> (r: FilePath)
        ensures
            r.written@ == vstd::utf8::encode_utf8(s@),
            r@ == path_of_bytes(vstd::utf8::encode_utf8(s@)),
    {
        let written: Vec<u8> = s.as_bytes_vec();
        FilePath { written }
    }

    /// The bytes as which the path is written.
    pub fn to_bytes(&self) -> (r: Vec<u8>)
        ensures
            r@ == self.written@,
    {
        let r = self.written.clone();
        assert(r@ =~= self.written@);
        r
    }

    /// The path as it is shown.
    pub fn to_text(&self) -> (r: String)
        ensures
            r@ == shown_text(self.written@),
    {
        decode_lossy(&self.written)
    }
}

impl Component {
    /// Writes the component down as bytes.
    pub fn to_bytes(&self) -> (r: Vec<u8>)
        ensures
            r@ == step_bytes(self@),
    {
        let mut r: Vec<u8> = Vec::new();
        match self {
            Component::RootDir => {
                r.push(SLASH);
            },
            Component::CurDir => {
                r.push(DOT);
            },
            Component::ParentDir => {
                r.push(DOT);
                r.push(DOT);
            },
            Component::Normal(name) => {
                push_bytes(&mut r, name);
            },
        }
        assert(r@ =~= step_bytes(self@));
        r
    }

    /// The component as it is shown.
    pub fn to_text(&self) -> (r: String)
        ensures
            r@ == step_text(self@),
    {
        let b = self.to_bytes();
        decode_lossy(&b)
    }
}

// ---------------------------------------------------------------------------
// Comparing, taking apart and joining
// ---------------------------------------------------------------------------

/// `base` leads `p`.
pub open spec fn is_prefix(base: Seq<Step>, p: Seq<Step>) -> bool {
    base.len() <= p.len() && p.take(base.len() as int) == base
}

/// What follows `base` in `p`.
pub open spec fn path_strip(p: Seq<Step>, base: Seq<Step>) -> Option<Seq<Step>> {
    if is_prefix(base, p) {
        Some(p.skip(base.len() as int))
    } else {
        None
    }
}

/// The directory that `p` stands in.
pub open spec fn path_parent(p: Seq<Step>) -> Option<Seq<Step>> {
    if p.len() > 0 && p.last() != Step::RootDir {
        Some(p.drop_last())
    } else {
        None
    }
}

/// The name at the end of `p`.
pub open spec fn path_name(p: Seq<Step>) -> Option<Seq<u8>> {
    if p.len() > 0 {
        match p.last() {
            Step::Normal(name) => Some(name),
            _ => None,
        }
    } else {
        None
    }
}

/// `q` as seen from `p`: an absolute path stays as it is.
pub open spec fn path_join(p: Seq<Step>, q: Seq<Step>) -> Seq<Step> {
    if q.len() > 0 && q[0] == Step::RootDir {
        q
    } else if q.len() > 0 && q[0] == Step::CurDir && p.len() > 0 {
        p + q.skip(1)
    } else {
        p + q
    }
}

/// The first bytes of a path that stand for a component of their own: the `/` of an absolute path,
/// or a `.` that leads.
pub open spec fn start_len(b: Seq<u8>) -> int {
    if b.len() > 0 && (b[0] == SLASH || (b[0] == DOT && (b.len() == 1 || b[1] == SLASH))) {
        1
    } else {
        0
    }
}

/// Where the last separator in `b` stands, or -1 where there is none.
pub open spec fn last_slash(b: Seq<u8>) -> int
    decreases b.len(),
{
    if b.len() == 0 {
        -1
    } else if b.last() == SLASH {
        b.len() - 1
    } else {
        last_slash(b.drop_last())
    }
}

/// `b` without what follows the last separator, and without that.
pub open spec fn without_last(b: Seq<u8>) -> Seq<u8> {
    if last_slash(b) < 0 {
        seq![]
    } else {
        b.take(last_slash(b))
    }
}

/// `b` without pieces at its end that stand for no component.
pub open spec fn trim_back(b: Seq<u8>) -> Seq<u8>
    decreases b.len(),
{
    proof {
        lemma_last_slash(b);
    }
    if b.len() > 0 && piece_steps(b.skip(last_slash(b) + 1), false).len() == 0 {
        trim_back(without_last(b))
    } else {
        b
    }
}

/// What follows the first separator in `b`.
pub open spec fn behind_first(b: Seq<u8>) -> Seq<u8> {
    if slash_at(b) < b.len() {
        b.skip(slash_at(b) + 1)
    } else {
        seq![]
    }
}

/// `b` without pieces at its beginning that stand for no component.
pub open spec fn trim_front(b: Seq<u8>) -> Seq<u8>
    decreases b.len(),
{
    proof {
        lemma_slash_bounds(b);
    }
    if b.len() > 0 && piece_steps(b.take(slash_at(b)), false).len() == 0 {
        trim_front(behind_first(b))
    } else {
        b
    }
}

/// What is left of `b` behind its first `n` components.
pub open spec fn behind_steps(b: Seq<u8>, leading: bool, n: int) -> Seq<u8>
    decreases b.len(),
{
    proof {
        lemma_slash_bounds(b);
    }
    if n <= 0 || b.len() == 0 {
        b
    } else {
        behind_steps(behind_first(b), false, n - piece_steps(b.take(slash_at(b)), leading).len())
    }
}

/// How what follows the first `n` components of a path is written.
pub open spec fn written_behind(b: Seq<u8>, n: int) -> Seq<u8> {
    if n <= 0 {
        b.take(start_len(b)) + trim_back(b.skip(start_len(b)))
    } else if b.len() > 0 && b[0] == SLASH {
        trim_back(trim_front(behind_steps(b.skip(1), false, n - 1)))
    } else {
        trim_back(trim_front(behind_steps(b, true, n)))
    }
}

/// How the directory is written that a path stands in.
pub open spec fn written_parent(b: Seq<u8>) -> Seq<u8> {
    let start = start_len(b);
    let body = trim_back(b.skip(start));
    if body.len() == 0 {
        seq![]
    } else {
        b.take(start) + trim_back(without_last(body))
    }
}

/// How a path is written as seen from another.
pub open spec fn written_join(a: Seq<u8>, b: Seq<u8>) -> Seq<u8> {
    if b.len() > 0 && b[0] == SLASH {
        b
    } else if a.len() > 0 && a.last() != SLASH {
        a.push(SLASH) + b
    } else {
        a + b
    }
}

/// What follows `base` in `p`, and how that is written.
pub open spec fn full_strip(p: PathView, base: Seq<Step>) -> Option<PathView> {
    match path_strip(p.steps, base) {
        Some(steps) => Some(
            PathView { steps, written: written_behind(p.written, base.len() as int) },
        ),
        None => None,
    }
}

/// `p` as it is shown to the user: relative to `base` where it lies under it.
pub open spec fn full_within(p: PathView, base: Seq<Step>) -> PathView {
    match full_strip(p, base) {
        Some(rel) => rel,
        None => p,
    }
}

/// The directory that `p` stands in, and how it is written.
pub open spec fn full_parent(p: PathView) -> Option<PathView> {
    match path_parent(p.steps) {
        Some(steps) => Some(PathView { steps, written: written_parent(p.written) }),
        None => None,
    }
}

/// `q` as seen from `p`, and how it is written.
pub open spec fn full_join(p: PathView, q: PathView) -> PathView {
    PathView {
        steps: path_join(p.steps, q.steps),
        written: written_join(p.written, q.written),
    }
}

/// A path that is written as text, as seen from `p`.
pub open spec fn full_join_text(p: PathView, text: Seq<char>) -> PathView {
    full_join(p, written_path(vstd::utf8::encode_utf8(text)))
}

/// What is shown of `p`: relative to `base` where it lies under it.
pub open spec fn text_within(p: PathView, base: Seq<Step>) -> Seq<char> {
    shown_text(full_within(p, base).written)
}

impl FilePath {
    /// Whether two paths are the same.
    pub fn equals(&self, other: &FilePath) -> (r: bool)
        ensures
            r == (self@ == other@),
    {
        let a = self.components();
        let b = other.components();
        if a.len() != b.len() {
            return false;
        }
        let mut i: usize = 0;
        while i < a.len()
            invariant
                i <= a@.len(),
                a@.len() == b@.len(),
                components_view(a@) == self@,
                components_view(b@) == other@,
                forall|j: int| 0 <= j < i ==> self@[j] == other@[j],
            decreases a@.len() - i,
        {
            assert(self@[i as int] == a@[i as int]@ && other@[i as int] == b@[i as int]@);
            if !a[i].equals(&b[i]) {
                return false;
            }
            i += 1;
        }
        assert(self@ =~= other@);
        true
    }

    /// Whether this path comes before another in the order of paths.
    pub fn is_before(&self, other: &FilePath) -> (r: bool)
        ensures
            r == path_before(self@, other@),
    {
        let a = self.components();
        let b = other.components();
        let mut i: usize = 0;
        while i < a.len() && i < b.len() && a[i].equals(&b[i])
            invariant
                components_view(a@) == self@,
                components_view(b@) == other@,
                self@.len() == a@.len(),
                other@.len() == b@.len(),
                i <= a@.len(),
                i <= b@.len(),
                forall|j: int| 0 <= j < i ==> self@[j] == other@[j],
            decreases a@.len() - i,
        {
            assert(self@[i as int] == a@[i as int]@ && other@[i as int] == b@[i as int]@);
            i += 1;
        }
        let r: bool = i < b.len() && (i == a.len() || a[i].is_before(&b[i]));
        proof {
            lemma_step_order();
            assert(i < a@.len() ==> self@[i as int] == a@[i as int]@);
            assert(i < b@.len() ==> other@[i as int] == b@[i as int]@);
            if r {
                assert(departs_below(self@, other@, i as int, step_lt()));
            } else {
                assert forall|k: int| !#[trigger] departs_below(self@, other@, k, step_lt()) by {
                    if departs_below(self@, other@, k, step_lt()) {
                        if k < i {
                            assert(self@[k] == other@[k]);
                            assert(step_lt()(self@[k], other@[k]));
                        } else if i < k {
                            assert(self@[i as int] == other@[i as int]);
                        }
                    }
                }
            }
        }
        r
    }

    /// What follows `base` in this path.
    pub fn strip_prefix(&self, base: &FilePath) -> (r: Option<FilePath>)
        ensures
            full_path_view(r) == full_strip(self.full(), base@),
    {
        let a = self.components();
        let b = base.components();
        let n: usize = b.len();
        if n > a.len() {
            return None;
        }
        let mut i: usize = 0;
        while i < n
            invariant
                components_view(a@) == self@,
                components_view(b@) == base@,
                n == b@.len(),
                n <= a@.len(),
                i <= n,
                forall|j: int| 0 <= j < i ==> self@[j] == base@[j],
            decreases n - i,
        {
            assert(self@[i as int] == a@[i as int]@ && base@[i as int] == b@[i as int]@);
            if !a[i].equals(&b[i]) {
                assert(self@.take(n as int)[i as int] != base@[i as int]);
                return None;
            }
            i += 1;
        }
        assert(self@.take(n as int) =~= base@);
        let written = bytes_behind(&self.written, n);
        proof {
            lemma_behind(self.written@, n as int);
        }
        Some(FilePath { written })
    }

    /// This path relative to `base` where it lies under it, and as it is elsewhere.
    pub fn within(&self, base: &FilePath) -> (r: FilePath)
        ensures
            r.full() == full_within(self.full(), base@),
    {
        match self.strip_prefix(base) {
            Some(rel) => rel,
            None => self.clone(),
        }
    }

    /// The directory that this path stands in.
    pub fn parent(&self) -> (r: Option<FilePath>)
        ensures
            full_path_view(r) == full_parent(self.full()),
    {
        let a = self.components();
        let n: usize = a.len();
        if n == 0 {
            return None;
        }
        assert(self@.last() == a@[n - 1]@);
        if let Component::RootDir = &a[n - 1] {
            return None;
        }
        let written = parent_bytes(&self.written);
        proof {
            lemma_parent(self.written@);
        }
        Some(FilePath { written })
    }

    /// The name at the end of this path, as it is shown. A path without one has an empty name.
    pub fn name_text(&self) -> (r: String)
        ensures
            match path_name(self@) {
                Some(name) => r@ == lossy_text(name),
                None => r@ == Seq::<char>::empty(),
            },
    {
        let a = self.components();
        let n: usize = a.len();
        if n == 0 {
            return String::new();
        }
        assert(self@.last() == a@[n - 1]@);
        if let Component::Normal(name) = &a[n - 1] {
            decode_lossy(name)
        } else {
            String::new()
        }
    }

    /// `other` as seen from this path.
    pub fn join(&self, other: &FilePath) -> (r: FilePath)
        ensures
            r.full() == full_join(self.full(), other.full()),
    {
        proof {
            lemma_join(self.written@, other.written@);
        }
        let n: usize = self.written.len();
        if other.written.len() > 0 && other.written[0] == SLASH {
            return other.clone();
        }
        let mut written = self.to_bytes();
        if n > 0 && self.written[n - 1] != SLASH {
            written.push(SLASH);
        }
        push_bytes(&mut written, &other.written);
        FilePath { written }
    }

    /// A path that is written as text, as seen from this path.
    pub fn join_text(&self, text: &str) -> (r: FilePath)
        ensures
            r.full() == full_join_text(self.full(), text@),
    {
        let other = FilePath::from_text(text);
        self.join(&other)
    }
}

/// What a path that there perhaps is stands for.
pub open spec fn full_path_view(path: Option<FilePath>) -> Option<PathView> {
    match path {
        Some(p) => Some(p.full()),
        None => None,
    }
}

/// Whether a piece stands for no component.
fn is_nothing(b: &Vec<u8>, from: usize, to: usize) -> (r: bool)
    requires
        from <= to <= b@.len(),
    ensures
        r == (piece_steps(b@.subrange(from as int, to as int), false).len() == 0),
{
    let ghost piece = b@.subrange(from as int, to as int);
    if to == from {
        true
    } else if to - from == 1 && b[from] == DOT {
        assert(piece =~= seq![DOT]);
        true
    } else {
        assert(piece != seq![DOT]) by {
            if piece == seq![DOT] {
                assert(piece.len() == 1);
                assert(piece[0] == b@[from as int]);
            }
        }
        false
    }
}

fn first_slash(b: &Vec<u8>, from: usize) -> (r: usize)
    requires
        from <= b@.len(),
    ensures
        from <= r <= b@.len(),
        r - from == slash_at(b@.skip(from as int)),
{
    let mut to: usize = from;
    while to < b.len() && b[to] != SLASH
        invariant
            from <= to <= b@.len(),
            forall|j: int| from <= j < to ==> b@[j] != SLASH,
        decreases b@.len() - to,
    {
        to += 1;
    }
    proof {
        let rest = b@.skip(from as int);
        assert forall|j: int| 0 <= j < to - from implies rest[j] != SLASH by {
            assert(rest[j] == b@[from + j]);
        }
        lemma_slash_at(rest, to - from);
    }
    to
}

/// Where the last piece of `b[..to]` begins.
fn last_piece(b: &Vec<u8>, to: usize) -> (r: usize)
    requires
        to <= b@.len(),
    ensures
        r <= to,
        r == last_slash(b@.take(to as int)) + 1,
{
    let mut at: usize = to;
    while at > 0 && b[at - 1] != SLASH
        invariant
            at <= to <= b@.len(),
            last_slash(b@.take(to as int)) == last_slash(b@.take(at as int)),
        decreases at,
    {
        assert(b@.take(at as int).drop_last() =~= b@.take(at - 1));
        assert(b@.take(at as int).last() == b@[at - 1]);
        at -= 1;
    }
    assert(at > 0 ==> b@.take(at as int).last() == b@[at - 1]);
    at
}

fn trim_bytes_back(b: &Vec<u8>) -> (r: Vec<u8>)
    ensures
        r@ == trim_back(b@),
{
    let mut to: usize = b.len();
    assert(b@.take(to as int) =~= b@);
    while to > 0
        invariant
            to <= b@.len(),
            trim_back(b@.take(to as int)) == trim_back(b@),
        decreases to,
    {
        let at: usize = last_piece(b, to);
        let ghost part = b@.take(to as int);
        assert(part.skip(at as int) =~= b@.subrange(at as int, to as int));
        if !is_nothing(b, at, to) {
            let r = byte_range(b, 0, to);
            assert(r@ =~= part);
            return r;
        }
        if at > 0 {
            assert(without_last(part) =~= b@.take(at - 1));
            to = at - 1;
        } else {
            assert(without_last(part) =~= b@.take(0));
            to = 0;
        }
    }
    assert(b@.take(0) =~= Seq::<u8>::empty());
    Vec::new()
}

fn trim_bytes_front(b: &Vec<u8>, from: usize) -> (r: Vec<u8>)
    requires
        from <= b@.len(),
    ensures
        r@ == trim_front(b@.skip(from as int)),
{
    let mut at: usize = from;
    while at < b.len()
        invariant
            from <= at <= b@.len(),
            trim_front(b@.skip(at as int)) == trim_front(b@.skip(from as int)),
        decreases b@.len() - at,
    {
        let to: usize = first_slash(b, at);
        let ghost part = b@.skip(at as int);
        assert(part.take(to - at) =~= b@.subrange(at as int, to as int));
        if !is_nothing(b, at, to) {
            let r = byte_range(b, at, b.len());
            assert(r@ =~= part);
            return r;
        }
        if to < b.len() {
            assert(behind_first(part) =~= b@.skip(to + 1));
            at = to + 1;
        } else {
            assert(behind_first(part) =~= b@.skip(b@.len() as int));
            at = b.len();
        }
    }
    assert(b@.skip(b@.len() as int) =~= Seq::<u8>::empty());
    Vec::new()
}

/// Where what follows the first `n` components begins.
fn skip_components(b: &Vec<u8>, from: usize, leading: bool, n: usize) -> (r: usize)
    requires
        from <= b@.len(),
    ensures
        from <= r <= b@.len(),
        b@.skip(r as int) == behind_steps(b@.skip(from as int), leading, n as int),
{
    let mut at: usize = from;
    let mut left: usize = n;
    let mut first: bool = leading;
    while at < b.len() && left > 0
        invariant
            from <= at <= b@.len(),
            behind_steps(b@.skip(at as int), first, left as int) == behind_steps(
                b@.skip(from as int),
                leading,
                n as int,
            ),
        decreases b@.len() - at,
    {
        let to: usize = first_slash(b, at);
        let ghost part = b@.skip(at as int);
        assert(part.take(to - at) =~= b@.subrange(at as int, to as int));
        match piece_component(b, at, to, first) {
            Some(_) => {
                left -= 1;
            },
            None => {},
        }
        if to < b.len() {
            assert(behind_first(part) =~= b@.skip(to + 1));
            at = to + 1;
        } else {
            assert(behind_first(part) =~= b@.skip(b@.len() as int));
            at = b.len();
        }
        first = false;
    }
    at
}

fn start_bytes(b: &Vec<u8>) -> (r: usize)
    ensures
        r == start_len(b@),
        r <= b@.len(),
{
    let n: usize = b.len();
    if n > 0 && (b[0] == SLASH || (b[0] == DOT && (n == 1 || b[1] == SLASH))) {
        1
    } else {
        0
    }
}

fn bytes_behind(b: &Vec<u8>, n: usize) -> (r: Vec<u8>)
    ensures
        r@ == written_behind(b@, n as int),
{
    if n == 0 {
        let start: usize = start_bytes(b);
        let body = byte_range(b, start, b.len());
        assert(body@ =~= b@.skip(start as int));
        let mut r = byte_range(b, 0, start);
        assert(r@ =~= b@.take(start as int));
        let rest = trim_bytes_back(&body);
        push_bytes(&mut r, &rest);
        r
    } else {
        let at: usize = if b.len() > 0 && b[0] == SLASH {
            skip_components(b, 1, false, n - 1)
        } else {
            assert(b@.skip(0) =~= b@);
            skip_components(b, 0, true, n)
        };
        let rest = trim_bytes_front(b, at);
        trim_bytes_back(&rest)
    }
}

fn parent_bytes(b: &Vec<u8>) -> (r: Vec<u8>)
    ensures
        r@ == written_parent(b@),
{
    let start: usize = start_bytes(b);
    let rest = byte_range(b, start, b.len());
    assert(rest@ =~= b@.skip(start as int));
    let body = trim_bytes_back(&rest);
    let n: usize = body.len();
    if n == 0 {
        return Vec::new();
    }
    let at: usize = last_piece(&body, n);
    assert(body@.take(n as int) =~= body@);
    let front = if at > 0 {
        byte_range(&body, 0, at - 1)
    } else {
        Vec::new()
    };
    assert(front@ =~= without_last(body@));
    let mut r = byte_range(b, 0, start);
    assert(r@ =~= b@.take(start as int));
    let more = trim_bytes_back(&front);
    push_bytes(&mut r, &more);
    r
}

// ---------------------------------------------------------------------------
// What writings stand for
// ---------------------------------------------------------------------------

/// A component as it stands behind the first one in a path: no name is empty, has a separator in
/// it, or is `.` or `..`.
pub open spec fn is_inner_step(s: Step) -> bool {
    match s {
        Step::ParentDir => true,
        Step::Normal(name) => {
            &&& name.len() > 0
            &&& !name.contains(SLASH)
            &&& name != seq![DOT]
            &&& name != seq![DOT, DOT]
        },
        _ => false,
    }
}

/// A path as it is read: the root and `.` stand at its beginning only.
pub open spec fn is_readable(p: Seq<Step>) -> bool {
    &&& p.len() > 0 ==> p[0] == Step::RootDir || p[0] == Step::CurDir || is_inner_step(p[0])
    &&& forall|i: int| 0 < i < p.len() ==> is_inner_step(#[trigger] p[i])
}

proof fn lemma_no_slash(piece: Seq<u8>)
    requires
        !piece.contains(SLASH),
    ensures
        slash_at(piece) == piece.len(),
    decreases piece.len(),
{
    if piece.len() > 0 {
        assert(piece[0] != SLASH) by {
            assert(piece.contains(piece[0]));
        }
        assert forall|x: u8| piece.skip(1).contains(x) implies piece.contains(x) by {
            let i = choose|i: int| 0 <= i < piece.skip(1).len() && piece.skip(1)[i] == x;
            assert(piece[i + 1] == x);
        }
        lemma_no_slash(piece.skip(1));
    }
}

pub proof fn lemma_slash_bounds(b: Seq<u8>)
    ensures
        0 <= slash_at(b) <= b.len(),
        slash_at(b) < b.len() ==> b[slash_at(b)] == SLASH,
    decreases b.len(),
{
    if b.len() > 0 && b[0] != SLASH {
        lemma_slash_bounds(b.skip(1));
    }
}

/// The first separator stays the first where more is written behind.
pub proof fn lemma_slash_extends(b: Seq<u8>, more: Seq<u8>)
    ensures
        slash_at(b) < b.len() ==> slash_at(b + more) == slash_at(b),
        slash_at(b) == b.len() && more.len() > 0 && more[0] == SLASH ==> slash_at(b + more)
            == b.len(),
    decreases b.len(),
{
    if b.len() > 0 {
        if b[0] != SLASH {
            lemma_slash_extends(b.skip(1), more);
            assert((b + more).skip(1) =~= b.skip(1) + more);
        }
    } else {
        assert(b + more =~= more);
    }
}

/// A path without a separator is one piece.
pub proof fn lemma_alone(piece: Seq<u8>, leading: bool)
    requires
        !piece.contains(SLASH),
    ensures
        relative_steps(piece, leading) == piece_steps(piece, leading),
{
    lemma_no_slash(piece);
}

proof fn lemma_before_slash(b: Seq<u8>)
    ensures
        !b.take(slash_at(b)).contains(SLASH),
        slash_at(b) == b.len() ==> !b.contains(SLASH),
    decreases b.len(),
{
    lemma_slash_bounds(b);
    let k = slash_at(b);
    let piece = b.take(k);
    assert forall|i: int| 0 <= i < k implies b[i] != SLASH by {
        lemma_before_first(b, i);
    }
    if piece.contains(SLASH) {
        let i = choose|i: int| 0 <= i < piece.len() && piece[i] == SLASH;
        assert(b[i] == SLASH);
    }
}

proof fn lemma_before_first(b: Seq<u8>, i: int)
    requires
        0 <= i < slash_at(b),
    ensures
        i < b.len(),
        b[i] != SLASH,
    decreases b.len(),
{
    if b.len() > 0 && b[0] != SLASH && i > 0 {
        lemma_before_first(b.skip(1), i - 1);
        assert(b.skip(1)[i - 1] == b[i]);
    }
}

proof fn lemma_piece_readable(piece: Seq<u8>, leading: bool)
    requires
        !piece.contains(SLASH),
    ensures
        forall|i: int|
            0 <= i < piece_steps(piece, leading).len() ==> is_inner_step(
                #[trigger] piece_steps(piece, leading)[i],
            ) || (leading && piece_steps(piece, leading)[i] == Step::CurDir),
        piece_steps(piece, leading).len() <= 1,
{
}

proof fn lemma_relative_readable(b: Seq<u8>, leading: bool)
    ensures
        forall|i: int|
            0 <= i < relative_steps(b, leading).len() ==> is_inner_step(
                #[trigger] relative_steps(b, leading)[i],
            ) || (leading && i == 0 && relative_steps(b, leading)[i] == Step::CurDir),
    decreases b.len(),
{
    if b.len() > 0 {
        lemma_slash_bounds(b);
        lemma_before_slash(b);
        let k = slash_at(b);
        let all = relative_steps(b, leading);
        if k < b.len() {
            let first = piece_steps(b.take(k), leading);
            let rest = relative_steps(b.skip(k + 1), false);
            lemma_piece_readable(b.take(k), leading);
            lemma_relative_readable(b.skip(k + 1), false);
            assert forall|i: int| 0 <= i < all.len() implies is_inner_step(#[trigger] all[i]) || (
            leading && i == 0 && all[i] == Step::CurDir) by {
                if i < first.len() {
                    assert(all[i] == first[i]);
                } else {
                    assert(all[i] == rest[i - first.len()]);
                }
            }
        } else {
            lemma_piece_readable(b, leading);
        }
    }
}

/// The root and `.` stand at the beginning of a path only.
pub proof fn paths_are_readable(b: Seq<u8>)
    ensures
        is_readable(path_of_bytes(b)),
{
    let p = path_of_bytes(b);
    if b.len() > 0 && b[0] == SLASH {
        let rest = relative_steps(b.skip(1), false);
        lemma_relative_readable(b.skip(1), false);
        assert forall|i: int| 0 < i < p.len() implies is_inner_step(#[trigger] p[i]) by {
            assert(p[i] == rest[i - 1]);
        }
    } else {
        lemma_relative_readable(b, true);
    }
}

/// What follows a directory in a path, as seen from that directory, is the path.
pub proof fn joining_undoes_stripping(b: Seq<u8>, base: Seq<Step>)
    requires
        is_prefix(base, path_of_bytes(b)),
    ensures
        path_join(base, path_strip(path_of_bytes(b), base)->0) == path_of_bytes(b),
{
    let p = path_of_bytes(b);
    let rel = p.skip(base.len() as int);
    paths_are_readable(b);
    if base.len() > 0 && rel.len() > 0 {
        assert(is_inner_step(p[base.len() as int]));
    }
    assert(path_join(base, rel) =~= p);
}

/// What is written behind a separator is read behind what stands before.
pub proof fn lemma_behind_slash(x: Seq<u8>, y: Seq<u8>, leading: bool)
    ensures
        relative_steps(x.push(SLASH) + y, leading) == relative_steps(x, leading) + relative_steps(
            y,
            false,
        ),
    decreases x.len(),
{
    let more = seq![SLASH] + y;
    let all = x.push(SLASH) + y;
    assert(all =~= x + more);
    lemma_slash_bounds(x);
    lemma_slash_extends(x, more);
    let k = slash_at(x);
    if k < x.len() {
        let rest = x.skip(k + 1);
        lemma_behind_slash(rest, y, false);
        assert(all.take(k) =~= x.take(k));
        assert(all.skip(k + 1) =~= rest.push(SLASH) + y);
        assert(relative_steps(all, leading) =~= relative_steps(x, leading) + relative_steps(
            y,
            false,
        ));
    } else {
        assert(all.take(k) =~= x);
        assert(all.skip(k + 1) =~= y);
        assert(relative_steps(all, leading) =~= relative_steps(x, leading) + relative_steps(
            y,
            false,
        )) by {
            if x.len() > 0 {
                assert(relative_steps(x, leading) == piece_steps(x, leading));
            }
        }
    }
}

pub proof fn lemma_last_slash(b: Seq<u8>)
    ensures
        -1 <= last_slash(b) < b.len(),
        last_slash(b) >= 0 ==> b[last_slash(b)] == SLASH,
        !b.skip(last_slash(b) + 1).contains(SLASH),
    decreases b.len(),
{
    if b.len() > 0 && b.last() != SLASH {
        let front = b.drop_last();
        lemma_last_slash(front);
        let k = last_slash(b);
        let tail = b.skip(k + 1);
        if tail.contains(SLASH) {
            let i = choose|i: int| 0 <= i < tail.len() && tail[i] == SLASH;
            assert(tail[i] == b[k + 1 + i]);
            if i < tail.len() - 1 {
                assert(front.skip(k + 1)[i] == SLASH);
                assert(front.skip(k + 1).contains(SLASH));
            }
        }
    }
}

proof fn lemma_last_piece(b: Seq<u8>)
    ensures
        relative_steps(b, false) == relative_steps(without_last(b), false) + piece_steps(
            b.skip(last_slash(b) + 1),
            false,
        ),
{
    let k = last_slash(b);
    let piece = b.skip(k + 1);
    lemma_last_slash(b);
    lemma_alone(piece, false);
    if k >= 0 {
        assert(b =~= b.take(k).push(SLASH) + piece);
        lemma_behind_slash(b.take(k), piece, false);
    } else {
        assert(piece =~= b);
        assert(relative_steps(b, false) =~= relative_steps(without_last(b), false) + piece_steps(
            piece,
            false,
        ));
    }
}

/// `y` is a part of `b` that ends before a separator, or at the end.
spec fn is_cut(y: Seq<u8>, b: Seq<u8>) -> bool {
    &&& y.len() <= b.len()
    &&& y == b.take(y.len() as int)
    &&& y.len() == 0 || y.len() == b.len() || b[y.len() as int] == SLASH
}

proof fn lemma_trim_back(b: Seq<u8>)
    ensures
        relative_steps(trim_back(b), false) == relative_steps(b, false),
        is_cut(trim_back(b), b),
        trim_back(b).len() > 0 ==> piece_steps(
            trim_back(b).skip(last_slash(trim_back(b)) + 1),
            false,
        ).len() > 0,
    decreases b.len(),
{
    lemma_last_slash(b);
    assert(b.take(b.len() as int) =~= b);
    if b.len() > 0 && piece_steps(b.skip(last_slash(b) + 1), false).len() == 0 {
        let front = without_last(b);
        lemma_last_piece(b);
        lemma_trim_back(front);
        lemma_cut_of_cut(trim_back(b), front, b);
        assert(relative_steps(b, false) =~= relative_steps(front, false));
    }
}

proof fn lemma_cut_of_cut(x: Seq<u8>, y: Seq<u8>, b: Seq<u8>)
    requires
        is_cut(x, y),
        y == without_last(b) || is_cut(y, b),
    ensures
        is_cut(x, b),
{
    lemma_last_slash(b);
    assert(is_cut(y, b)) by {
        if y == without_last(b) {
            assert(y =~= b.take(y.len() as int));
        }
    }
    assert(y.take(x.len() as int) =~= b.take(x.len() as int));
}

proof fn lemma_trim_front(b: Seq<u8>)
    ensures
        relative_steps(trim_front(b), false) == relative_steps(b, false),
        trim_front(b).len() > 0 ==> piece_steps(
            trim_front(b).take(slash_at(trim_front(b))),
            false,
        ).len() > 0,
    decreases b.len(),
{
    lemma_slash_bounds(b);
    if b.len() > 0 && piece_steps(b.take(slash_at(b)), false).len() == 0 {
        lemma_trim_front(behind_first(b));
        lemma_first_piece(b, false);
        assert(relative_steps(b, false) =~= relative_steps(behind_first(b), false));
    }
}

proof fn lemma_first_piece(b: Seq<u8>, leading: bool)
    requires
        b.len() > 0,
    ensures
        relative_steps(b, leading) == piece_steps(b.take(slash_at(b)), leading) + relative_steps(
            behind_first(b),
            false,
        ),
        piece_steps(b.take(slash_at(b)), leading).len() <= 1,
{
    lemma_slash_bounds(b);
    if slash_at(b) == b.len() {
        assert(b.take(slash_at(b)) =~= b);
        assert(relative_steps(b, leading) =~= piece_steps(b, leading) + relative_steps(
            behind_first(b),
            false,
        ));
    }
}

proof fn lemma_behind_steps(b: Seq<u8>, leading: bool, n: int)
    requires
        0 <= n <= relative_steps(b, leading).len(),
    ensures
        relative_steps(behind_steps(b, leading, n), leading && n == 0) == relative_steps(
            b,
            leading,
        ).skip(n),
    decreases b.len(),
{
    let all = relative_steps(b, leading);
    if n > 0 && b.len() > 0 {
        lemma_slash_bounds(b);
        lemma_first_piece(b, leading);
        let first = piece_steps(b.take(slash_at(b)), leading);
        let rest = relative_steps(behind_first(b), false);
        lemma_behind_steps(behind_first(b), false, n - first.len());
        assert(all.skip(n) =~= rest.skip(n - first.len()));
    } else {
        assert(all.skip(0) =~= all);
    }
}

/// Without a `.` at the beginning it makes no difference whether a path leads.
proof fn lemma_leading(b: Seq<u8>)
    requires
        b.len() > 0 ==> b.take(slash_at(b)) != seq![DOT],
    ensures
        relative_steps(b, true) == relative_steps(b, false),
{
    if b.len() > 0 {
        lemma_first_piece(b, true);
        lemma_first_piece(b, false);
    }
}

/// The first component of a path that is not a name.
spec fn start_steps(b: Seq<u8>) -> Seq<Step> {
    if start_len(b) == 0 {
        seq![]
    } else if b[0] == SLASH {
        seq![Step::RootDir]
    } else {
        seq![Step::CurDir]
    }
}

proof fn lemma_no_start(b: Seq<u8>)
    requires
        b.len() > 0,
        start_len(b) == 0,
    ensures
        b[0] != SLASH,
        b.take(slash_at(b)) != seq![DOT],
        b.take(slash_at(b)).len() > 0,
{
    lemma_slash_bounds(b);
    let piece = b.take(slash_at(b));
    assert(piece.len() > 0);
    if piece == seq![DOT] {
        assert(piece.len() == 1);
        assert(piece[0] == b[0]);
    }
}

proof fn lemma_dot(y: Seq<u8>)
    requires
        y.len() == 0 || y[0] == SLASH,
    ensures
        path_of_bytes(seq![DOT] + y) == seq![Step::CurDir] + relative_steps(y, false),
{
    let b = seq![DOT] + y;
    assert(b[0] == DOT);
    assert(y.len() > 0 ==> b[1] == SLASH);
    lemma_slash_at(b, 1);
    assert(b.take(1) =~= seq![DOT]);
    lemma_first_piece(b, true);
    if y.len() > 0 {
        lemma_slash_at(y, 0);
        lemma_first_piece(y, false);
        assert(y.take(0).len() == 0);
        assert(behind_first(b) =~= behind_first(y));
        assert(relative_steps(y, false) =~= relative_steps(behind_first(y), false));
    }
    assert(path_of_bytes(b) =~= seq![Step::CurDir] + relative_steps(y, false));
}

proof fn lemma_start(b: Seq<u8>)
    ensures
        path_of_bytes(b) == start_steps(b) + relative_steps(b.skip(start_len(b)), false),
{
    if start_len(b) == 0 {
        assert(b.skip(0) =~= b);
        if b.len() > 0 {
            lemma_no_start(b);
        }
        lemma_leading(b);
    } else if b[0] != SLASH {
        let y = b.skip(1);
        assert(b =~= seq![DOT] + y);
        assert(y.len() > 0 ==> y[0] == b[1]);
        lemma_dot(y);
    }
    assert(path_of_bytes(b) =~= start_steps(b) + relative_steps(b.skip(start_len(b)), false));
}

proof fn lemma_first_of_cut(y: Seq<u8>, b: Seq<u8>)
    requires
        is_cut(y, b),
        y.len() > 0,
        b[0] != SLASH,
    ensures
        y[0] == b[0],
        y.take(slash_at(y)) == b.take(slash_at(b)),
{
    lemma_slash_bounds(b);
    let k = slash_at(b);
    let m = y.len() as int;
    assert(k <= m) by {
        if k > m {
            lemma_before_first(b, m);
        }
    }
    assert forall|j: int| 0 <= j < k implies y[j] != SLASH by {
        lemma_before_first(b, j);
        assert(y[j] == b[j]);
    }
    assert(k < m ==> y[k] == b[k]);
    lemma_slash_at(y, k);
    assert(y.take(k) =~= b.take(k));
}

proof fn lemma_rebuild(b: Seq<u8>, y: Seq<u8>)
    requires
        is_cut(y, b.skip(start_len(b))),
    ensures
        path_of_bytes(b.take(start_len(b)) + y) == start_steps(b) + relative_steps(y, false),
{
    let start = start_len(b);
    let body = b.skip(start);
    let all = b.take(start) + y;
    if start == 0 {
        assert(all =~= y);
        assert(body =~= b);
        if y.len() > 0 {
            lemma_no_start(b);
            lemma_first_of_cut(y, b);
        }
        lemma_leading(y);
        assert(start_steps(b) + relative_steps(y, false) =~= relative_steps(y, false));
    } else if b[0] == SLASH {
        assert(all[0] == SLASH);
        assert(all.skip(1) =~= y);
    } else {
        assert(all =~= seq![DOT] + y);
        if y.len() > 0 {
            assert(y[0] == body[0]);
            assert(body[0] == b[1]);
        }
        lemma_dot(y);
    }
}

proof fn lemma_plain(u: Seq<u8>, t: Seq<u8>)
    requires
        is_cut(u, t),
        t.len() > 0 ==> piece_steps(t.take(slash_at(t)), false).len() > 0,
    ensures
        path_of_bytes(u) == relative_steps(u, false),
{
    if u.len() > 0 {
        lemma_slash_bounds(t);
        assert(t.take(slash_at(t)).len() > 0);
        lemma_first_of_cut(u, t);
    }
    lemma_leading(u);
}

/// What is written of the rest of a path is read as the rest.
pub proof fn lemma_behind(b: Seq<u8>, n: int)
    requires
        0 <= n <= path_of_bytes(b).len(),
    ensures
        path_of_bytes(written_behind(b, n)) == path_of_bytes(b).skip(n),
{
    let all = path_of_bytes(b);
    if n == 0 {
        let body = b.skip(start_len(b));
        lemma_start(b);
        lemma_trim_back(body);
        lemma_rebuild(b, trim_back(body));
        assert(all.skip(0) =~= all);
    } else {
        let rest = if b.len() > 0 && b[0] == SLASH {
            behind_steps(b.skip(1), false, n - 1)
        } else {
            behind_steps(b, true, n)
        };
        if b.len() > 0 && b[0] == SLASH {
            lemma_behind_steps(b.skip(1), false, n - 1);
            assert(all.skip(n) =~= relative_steps(b.skip(1), false).skip(n - 1));
        } else {
            lemma_behind_steps(b, true, n);
        }
        let t = trim_front(rest);
        lemma_trim_front(rest);
        lemma_trim_back(t);
        lemma_plain(trim_back(t), t);
    }
}

/// What is written of the directory of a path is read as that directory.
pub proof fn lemma_parent(b: Seq<u8>)
    requires
        path_of_bytes(b).len() > 0,
        path_of_bytes(b).last() != Step::RootDir,
    ensures
        path_of_bytes(written_parent(b)) == path_of_bytes(b).drop_last(),
{
    let all = path_of_bytes(b);
    let body = b.skip(start_len(b));
    let t = trim_back(body);
    lemma_start(b);
    lemma_trim_back(body);
    if t.len() == 0 {
        assert(relative_steps(body, false) =~= Seq::<Step>::empty());
        assert(all =~= start_steps(b));
        assert(all.drop_last() =~= Seq::<Step>::empty());
    } else {
        let front = without_last(t);
        let y = trim_back(front);
        lemma_last_piece(t);
        lemma_trim_back(front);
        lemma_cut_of_cut(y, front, t);
        lemma_cut_of_cut(y, t, body);
        lemma_rebuild(b, y);
        let last = piece_steps(t.skip(last_slash(t) + 1), false);
        assert(last.len() == 1);
        assert(all.drop_last() =~= start_steps(b) + relative_steps(front, false));
    }
}

/// What is written of a path as seen from another is read as the joined path.
pub proof fn lemma_join(a: Seq<u8>, b: Seq<u8>)
    ensures
        path_of_bytes(written_join(a, b)) == path_join(path_of_bytes(a), path_of_bytes(b)),
{
    let p = path_of_bytes(a);
    let q = path_of_bytes(b);
    if b.len() > 0 && b[0] == SLASH {
        assert(q[0] == Step::RootDir);
    } else {
        lemma_relative_readable(b, true);
        lemma_relative_readable(b, false);
        if a.len() == 0 {
            assert(a + b =~= b);
            assert(path_join(p, q) =~= q);
        } else {
            let x = if a.last() == SLASH {
                a.drop_last()
            } else {
                a
            };
            let all = written_join(a, b);
            assert(all =~= x.push(SLASH) + b);
            lemma_start(a);
            if start_len(a) == 0 {
                lemma_no_start(a);
                lemma_first_piece(a, false);
                assert(a.skip(0) =~= a);
            }
            assert(p.len() > 0);
            let more = relative_steps(b, false);
            assert(path_of_bytes(all) =~= p + more) by {
                if a[0] == SLASH {
                    if x.len() == 0 {
                        assert(all.skip(1) =~= b);
                        assert(a.skip(1).len() == 0);
                    } else {
                        let y = x.skip(1);
                        assert(all.skip(1) =~= y.push(SLASH) + b);
                        lemma_behind_slash(y, b, false);
                        if a.last() == SLASH {
                            assert(a.skip(1) =~= y.push(SLASH) + Seq::<u8>::empty());
                            lemma_behind_slash(y, Seq::empty(), false);
                        }
                    }
                } else {
                    lemma_behind_slash(x, b, true);
                    assert(all[0] == a[0]);
                    if a.last() == SLASH {
                        assert(a =~= x.push(SLASH) + Seq::<u8>::empty());
                        lemma_behind_slash(x, Seq::empty(), true);
                    }
                }
            }
            if b.len() > 0 && b.take(slash_at(b)) == seq![DOT] {
                lemma_first_piece(b, true);
                lemma_first_piece(b, false);
                assert(q.skip(1) =~= more);
            } else {
                lemma_leading(b);
            }
        }
    }
}

} // verus!
