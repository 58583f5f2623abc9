//! The partitioner: units of one kind are split into app and vendor code, then
//! by package, then by folder, until each group fits the size band.

use crate::buckets::{add_bucket, bucket_index, buckets_of, into_entries, new_buckets, push_to_bucket};
use crate::text::{chars_of, contains_seq, folder_key, folder_next, folder_of, is_app_code, lemma_folder_spec_unique, marker, package_name, package_spec, prefix_of, string_of};
use vstd::multiset::Multiset;
use vstd::prelude::*;
use vstd::seq_lib::lemma_multiset_commutative;

verus! {

broadcast use {vstd::seq_lib::group_to_multiset_ensures, vstd::multiset::group_multiset_axioms};

/// A group at or above this total size is split further.
pub const LARGE_CHUNK: usize = 300_000;

/// A group at or below this total size is merged with its siblings where it can be.
pub const SMALL_CHUNK: usize = 30_000;

/// One compiled unit handed to the partitioner.
pub struct ChunkUnit {
    /// Index of the unit's chunk kind; units of different kinds never share a chunk.
    pub kind: usize,
    /// Path-like identifier, with `/` between segments.
    pub ident: String,
    /// Estimated output size.
    pub size: usize,
}

/// One output chunk.
pub struct ChunkPlan {
    /// The kind of every member.
    pub kind: usize,
    /// Key derived from the partitioning path.
    pub key: String,
    /// Indices of the member units, in input order within each group.
    pub members: Vec<usize>,
    /// Whether this chunk carries the auxiliary referenced assets.
    pub side_refs: bool,
}

/// The size class of a group.
#[derive(PartialEq, Eq, Structural, Debug, Clone, Copy)]
pub enum ChunkSize {
    Large,
    Perfect,
    Small,
}

/// Sum of the sizes of the units that `items` points at.
pub open spec fn total_size(units: Seq<ChunkUnit>, items: Seq<usize>) -> int
    decreases items.len(),
{
    if items.len() == 0 {
        0
    } else {
        total_size(units, items.drop_last()) + units[items.last() as int].size
    }
}

/// The size class of a total.
pub open spec fn size_class(t: int) -> ChunkSize {
    if t >= LARGE_CHUNK {
        ChunkSize::Large
    } else if t > SMALL_CHUNK {
        ChunkSize::Perfect
    } else {
        ChunkSize::Small
    }
}

/// Every index in `items` is a unit of `kind`.
pub open spec fn items_ok(units: Seq<ChunkUnit>, items: Seq<usize>, kind: usize) -> bool {
    forall|j: int| 0 <= j < items.len() ==> #[trigger] items[j] < units.len() && units[items[j] as int].kind == kind
}

/// The members of all chunks, one chunk after the other.
pub open spec fn flat(cs: Seq<ChunkPlan>) -> Seq<usize>
    decreases cs.len(),
{
    if cs.len() == 0 {
        Seq::empty()
    } else {
        flat(cs.drop_last()) + cs.last().members@
    }
}

/// Each chunk's members are units of the chunk's kind.
pub open spec fn members_ok(units: Seq<ChunkUnit>, cs: Seq<ChunkPlan>) -> bool {
    forall|i: int| 0 <= i < cs.len() ==> items_ok(units, #[trigger] cs[i].members@, cs[i].kind)
}

/// Every chunk has at least one member.
pub open spec fn nonempty_chunks(cs: Seq<ChunkPlan>) -> bool {
    forall|i: int| 0 <= i < cs.len() ==> (#[trigger] cs[i]).members@.len() > 0
}

/// The auxiliary assets go with the first chunk and with no other.
pub open spec fn side_refs_ok(cs: Seq<ChunkPlan>) -> bool {
    forall|i: int| 0 <= i < cs.len() ==> #[trigger] cs[i].side_refs == (i == 0)
}

proof fn lemma_total_prefix(units: Seq<ChunkUnit>, items: Seq<usize>, i: int, j: int)
    requires
        0 <= i <= j <= items.len(),
    ensures
        total_size(units, items.take(i)) <= total_size(units, items.take(j)),
    decreases j - i,
{
    if i < j {
        lemma_total_prefix(units, items, i, j - 1);
        assert(items.take(j).drop_last() =~= items.take(j - 1));
    }
}

/// `cur` begins with `prev`, and each chunk after that has `kind` and a key
/// that starts with `name`.
pub open spec fn emits_under(prev: Seq<ChunkPlan>, cur: Seq<ChunkPlan>, kind: usize, name: Seq<char>) -> bool {
    &&& prev.len() <= cur.len()
    &&& forall|i: int| 0 <= i < prev.len() ==> #[trigger] cur[i] == prev[i]
    &&& forall|i: int| prev.len() <= i < cur.len() ==> (#[trigger] cur[i]).kind == kind && name.is_prefix_of(cur[i].key@)
}

/// The key and members of each chunk.
pub open spec fn plan_view(cs: Seq<ChunkPlan>) -> Seq<(Seq<char>, Seq<usize>)> {
    Seq::new(cs.len(), |i: int| (cs[i].key@, cs[i].members@))
}

proof fn lemma_prefix_trans(a: Seq<char>, b: Seq<char>, c: Seq<char>)
    requires
        a.is_prefix_of(b),
        b.is_prefix_of(c),
    ensures
        a.is_prefix_of(c),
{
    assert forall|i: int| 0 <= i < a.len() implies a[i] == c.subrange(0, a.len() as int)[i] by {
        assert(a[i] == b.subrange(0, a.len() as int)[i]);
        assert(b[i] == c.subrange(0, b.len() as int)[i]);
    }
    assert(a =~= c.subrange(0, a.len() as int));
}

proof fn lemma_joined_prefix(name: Seq<char>, label: Seq<char>)
    ensures
        name.is_prefix_of(joined(name, label)),
{
    assert(joined(name, label).subrange(0, name.len() as int) =~= name);
}

/// What was emitted under a longer name was emitted under `name`; a run of
/// emissions under `name` followed by another is one run under `name`.
proof fn lemma_emits_chain(
    a: Seq<ChunkPlan>,
    b: Seq<ChunkPlan>,
    c: Seq<ChunkPlan>,
    kind: usize,
    name: Seq<char>,
    longer: Seq<char>,
)
    requires
        emits_under(a, b, kind, name),
        emits_under(b, c, kind, longer),
        name.is_prefix_of(longer),
    ensures
        emits_under(a, c, kind, name),
{
    assert forall|i: int| a.len() <= i < c.len() implies (#[trigger] c[i]).kind == kind && name.is_prefix_of(c[i].key@) by {
        if i < b.len() {
            assert(c[i] == b[i]);
        } else {
            lemma_prefix_trans(name, longer, c[i].key@);
        }
    }
}

proof fn lemma_prefix_refl(name: Seq<char>)
    ensures
        name.is_prefix_of(name),
{
    assert(name.subrange(0, name.len() as int) =~= name);
}

proof fn lemma_flat_push(cs: Seq<ChunkPlan>, c: ChunkPlan)
    ensures
        flat(cs.push(c)).to_multiset() =~= flat(cs).to_multiset().add(c.members@.to_multiset()),
{
    assert(cs.push(c).drop_last() =~= cs);
    lemma_multiset_commutative(flat(cs), c.members@);
}

/// Classifies the total size of the units that `items` points at.
pub fn chunk_size(units: &Vec<ChunkUnit>, items: &Vec<usize>) -> (r: ChunkSize)
    requires
        forall|j: int| 0 <= j < items@.len() ==> items@[j] < units@.len(),
    ensures
        r == size_class(total_size(units@, items@)),
{
    let mut total: usize = 0;
    let mut i: usize = 0;
    while i < items.len()
        invariant
            i <= items@.len(),
            forall|j: int| 0 <= j < items@.len() ==> items@[j] < units@.len(),
            total == total_size(units@, items@.take(i as int)),
            total < LARGE_CHUNK,
        decreases items@.len() - i,
    {
        let size = units[items[i]].size;
        assert(items@.take(i + 1).drop_last() =~= items@.take(i as int));
        if size >= LARGE_CHUNK - total {
            proof {
                lemma_total_prefix(units@, items@, i + 1, items@.len() as int);
                assert(items@.take(items@.len() as int) =~= items@);
            }
            return ChunkSize::Large;
        }
        total = total + size;
        i = i + 1;
    }
    assert(items@.take(i as int) =~= items@);
    if total > SMALL_CHUNK {
        ChunkSize::Perfect
    } else {
        ChunkSize::Small
    }
}

/// The state of one partitioning run over one kind.
struct SplitContext {
    /// The kind of every unit handed to this context.
    kind: usize,
    /// Chunks emitted so far, across kinds.
    chunks: Vec<ChunkPlan>,
}

impl SplitContext {
    /// The context is consistent with `units`.
    spec fn wf(&self, units: Seq<ChunkUnit>) -> bool {
        members_ok(units, self.chunks@) && side_refs_ok(self.chunks@) && nonempty_chunks(self.chunks@)
    }

    /// The units placed in chunks so far.
    spec fn placed(&self) -> Multiset<usize> {
        flat(self.chunks@).to_multiset()
    }

    /// `self` follows `prev` by placing exactly the units of `items`.
    spec fn extends(&self, prev: &SplitContext, units: Seq<ChunkUnit>, items: Multiset<usize>) -> bool {
        &&& self.wf(units)
        &&& self.kind == prev.kind
        &&& self.placed() == prev.placed().add(items)
    }
}

/// Emits one chunk of `items` under `key`; the first chunk of a run carries the
/// auxiliary assets.
fn make_chunk(units: &Vec<ChunkUnit>, items: Vec<usize>, key: &Vec<char>, ctx: &mut SplitContext)
    requires
        old(ctx).wf(units@),
        items@.len() > 0,
        items_ok(units@, items@, old(ctx).kind),
    ensures
        final(ctx).extends(old(ctx), units@, items@.to_multiset()),
        final(ctx).chunks@.len() == old(ctx).chunks@.len() + 1,
        final(ctx).chunks@.drop_last() == old(ctx).chunks@,
        final(ctx).chunks@.last().members@ == items@,
        final(ctx).chunks@.last().key@ == key@,
        final(ctx).chunks@.last().kind == old(ctx).kind,
        emits_under(old(ctx).chunks@, final(ctx).chunks@, old(ctx).kind, key@),
        plan_view(final(ctx).chunks@) == plan_view(old(ctx).chunks@).push((key@, items@)),
{
    proof {
        lemma_prefix_refl(key@);
    }
    let side_refs = ctx.chunks.len() == 0;
    let c = ChunkPlan { kind: ctx.kind, key: string_of(key.as_slice()), members: items, side_refs };
    proof {
        lemma_flat_push(ctx.chunks@, c);
    }
    ctx.chunks.push(c);
    assert(ctx.chunks@ == old(ctx).chunks@.push(c));
    assert(ctx.chunks@.drop_last() =~= old(ctx).chunks@);
    assert(flat(ctx.chunks@).to_multiset() =~= flat(old(ctx).chunks@).to_multiset().add(items@.to_multiset()));
    assert(members_ok(units@, ctx.chunks@)) by {
        assert forall|i: int| 0 <= i < ctx.chunks@.len() implies items_ok(units@, #[trigger] ctx.chunks@[i].members@, ctx.chunks@[i].kind) by {
            if i < old(ctx).chunks@.len() {
                assert(ctx.chunks@[i] == old(ctx).chunks@[i]);
            }
        }
    }
    assert(nonempty_chunks(ctx.chunks@)) by {
        assert forall|i: int| 0 <= i < ctx.chunks@.len() implies (#[trigger] ctx.chunks@[i]).members@.len() > 0 by {
            if i < old(ctx).chunks@.len() {
                assert(ctx.chunks@[i] == old(ctx).chunks@[i]);
            }
        }
    }
    assert(side_refs_ok(ctx.chunks@)) by {
        assert forall|i: int| 0 <= i < ctx.chunks@.len() implies #[trigger] ctx.chunks@[i].side_refs == (i == 0) by {
            if i < old(ctx).chunks@.len() {
                assert(ctx.chunks@[i] == old(ctx).chunks@[i]);
            }
        }
    }
    assert(plan_view(ctx.chunks@) =~= plan_view(old(ctx).chunks@).push((key@, items@)));
}

/// The key of a subgroup: the outer name, a `-`, and the subgroup's label.
pub open spec fn joined(name: Seq<char>, label: Seq<char>) -> Seq<char> {
    name + seq!['-'] + label
}

fn concat(a: &[char], b: &[char]) -> (r: Vec<char>)
    ensures
        r@ == a@ + b@,
{
    let mut r: Vec<char> = Vec::new();
    let mut i: usize = 0;
    while i < a.len()
        invariant
            i <= a@.len(),
            r@ == a@.take(i as int),
        decreases a@.len() - i,
    {
        r.push(a[i]);
        i = i + 1;
        assert(r@ =~= a@.take(i as int));
    }
    let mut j: usize = 0;
    while j < b.len()
        invariant
            i == a@.len(),
            j <= b@.len(),
            r@ == a@ + b@.take(j as int),
        decreases b@.len() - j,
    {
        r.push(b[j]);
        j = j + 1;
        assert(r@ =~= a@ + b@.take(j as int));
    }
    assert(a@.take(i as int) =~= a@);
    assert(b@.take(j as int) =~= b@);
    r
}

fn join_key(name: &Vec<char>, label: &[char]) -> (r: Vec<char>)
    ensures
        r@ == joined(name@, label@),
{
    let dash = vec!['-'];
    let head = concat(name.as_slice(), dash.as_slice());
    concat(head.as_slice(), label)
}

/// Handles a group with siblings to merge into: a large group is handed back
/// for further splitting, a perfect one becomes a chunk, a small one joins
/// `remaining`.
fn place_or_defer(
    units: &Vec<ChunkUnit>,
    items: Vec<usize>,
    key: &Vec<char>,
    ctx: &mut SplitContext,
    remaining: &mut Vec<usize>,
) -> (r: Option<Vec<usize>>)
    requires
        old(ctx).wf(units@),
        items_ok(units@, items@, old(ctx).kind),
        items_ok(units@, old(remaining)@, old(ctx).kind),
    ensures
        size_class(total_size(units@, items@)) == ChunkSize::Large <==> r is Some,
        r matches Some(v) ==> v@ == items@ && *final(ctx) == *old(ctx) && final(remaining)@ == old(remaining)@,
        size_class(total_size(units@, items@)) == ChunkSize::Perfect ==> final(ctx).extends(
            old(ctx),
            units@,
            items@.to_multiset(),
        ) && final(ctx).chunks@.len() == old(ctx).chunks@.len() + 1
            && final(ctx).chunks@.last().key@ == key@ && final(remaining)@ == old(remaining)@
            && emits_under(old(ctx).chunks@, final(ctx).chunks@, old(ctx).kind, key@)
            && plan_view(final(ctx).chunks@) == plan_view(old(ctx).chunks@).push((key@, items@)),
        size_class(total_size(units@, items@)) == ChunkSize::Small ==> *final(ctx) == *old(ctx)
            && final(remaining)@ == old(remaining)@ + items@,
        items_ok(units@, final(remaining)@, old(ctx).kind),
{
    match chunk_size(units, &items) {
        ChunkSize::Large => Some(items),
        ChunkSize::Perfect => {
            make_chunk(units, items, key, ctx);
            None
        },
        ChunkSize::Small => {
            let ghost before = remaining@;
            let ghost added = items@;
            let mut items = items;
            remaining.append(&mut items);
            assert(items_ok(units@, remaining@, ctx.kind)) by {
                assert forall|j: int| 0 <= j < remaining@.len() implies #[trigger] remaining@[j] < units@.len()
                    && units@[remaining@[j] as int].kind == ctx.kind by {
                    if j >= before.len() {
                        assert(remaining@[j] == added[j - before.len()]);
                    }
                }
            }
            None
        },
    }
}

/// Handles a group with no siblings left to merge into: a large group is
/// handed back for further splitting, any other becomes a chunk.
fn place_final(units: &Vec<ChunkUnit>, items: Vec<usize>, key: &Vec<char>, ctx: &mut SplitContext) -> (r: Option<
    Vec<usize>,
>)
    requires
        old(ctx).wf(units@),
        items@.len() > 0,
        items_ok(units@, items@, old(ctx).kind),
    ensures
        size_class(total_size(units@, items@)) == ChunkSize::Large <==> r is Some,
        r matches Some(v) ==> v@ == items@ && *final(ctx) == *old(ctx),
        r is None ==> final(ctx).extends(old(ctx), units@, items@.to_multiset())
            && final(ctx).chunks@.len() == old(ctx).chunks@.len() + 1
            && final(ctx).chunks@.last().key@ == key@
            && emits_under(old(ctx).chunks@, final(ctx).chunks@, old(ctx).kind, key@)
            && plan_view(final(ctx).chunks@) == plan_view(old(ctx).chunks@).push((key@, items@)),
{
    match chunk_size(units, &items) {
        ChunkSize::Large => Some(items),
        _ => {
            make_chunk(units, items, key, ctx);
            None
        },
    }
}

/// The members of all buckets, one bucket after the other.
pub open spec fn flat_buckets(es: Seq<(Seq<char>, Seq<usize>)>) -> Seq<usize>
    decreases es.len(),
{
    if es.len() == 0 {
        Seq::empty()
    } else {
        flat_buckets(es.drop_last()) + es.last().1
    }
}

/// The buckets that an entry vector holds.
pub open spec fn entries_view(v: Seq<(Vec<char>, Vec<usize>)>) -> Seq<(Seq<char>, Seq<usize>)> {
    Seq::new(v.len(), |i: int| (v[i].0@, v[i].1@))
}

proof fn lemma_flat_buckets_push(es: Seq<(Seq<char>, Seq<usize>)>, e: (Seq<char>, Seq<usize>))
    ensures
        flat_buckets(es.push(e)).to_multiset() =~= flat_buckets(es).to_multiset().add(e.1.to_multiset()),
{
    assert(es.push(e).drop_last() =~= es);
    lemma_multiset_commutative(flat_buckets(es), e.1);
}

proof fn lemma_flat_buckets_update(es: Seq<(Seq<char>, Seq<usize>)>, i: int, x: usize)
    requires
        0 <= i < es.len(),
    ensures
        flat_buckets(es.update(i, (es[i].0, es[i].1.push(x)))).to_multiset() =~= flat_buckets(
            es,
        ).to_multiset().insert(x),
    decreases es.len(),
{
    let es2 = es.update(i, (es[i].0, es[i].1.push(x)));
    if i == es.len() - 1 {
        assert(es2.drop_last() =~= es.drop_last());
        lemma_multiset_commutative(flat_buckets(es.drop_last()), es[i].1.push(x));
        lemma_multiset_commutative(flat_buckets(es.drop_last()), es[i].1);
    } else {
        let d = es.drop_last();
        assert(es2.drop_last() =~= d.update(i, (d[i].0, d[i].1.push(x))));
        lemma_flat_buckets_update(d, i, x);
        lemma_multiset_commutative(flat_buckets(es2.drop_last()), es.last().1);
        lemma_multiset_commutative(flat_buckets(d), es.last().1);
    }
}

proof fn lemma_flat_buckets_take(es: Seq<(Seq<char>, Seq<usize>)>, k: int)
    requires
        0 <= k < es.len(),
    ensures
        flat_buckets(es.take(k + 1)).to_multiset() =~= flat_buckets(es.take(k)).to_multiset().add(
            es[k].1.to_multiset(),
        ),
{
    assert(es.take(k).push(es[k]) =~= es.take(k + 1));
    lemma_flat_buckets_push(es.take(k), es[k]);
}

/// The position of the last bucket keyed `k`, or -1.
pub open spec fn key_index(g: Seq<(Seq<char>, Seq<usize>)>, k: Seq<char>) -> int
    decreases g.len(),
{
    if g.len() == 0 {
        -1
    } else if g.last().0 == k {
        g.len() - 1
    } else {
        key_index(g.drop_last(), k)
    }
}

/// `x` joins the bucket keyed `k`, or starts a new one at the end.
pub open spec fn add_to_group(g: Seq<(Seq<char>, Seq<usize>)>, k: Seq<char>, x: usize) -> Seq<(Seq<char>, Seq<usize>)> {
    let i = key_index(g, k);
    if i >= 0 {
        g.update(i, (g[i].0, g[i].1.push(x)))
    } else {
        g.push((k, seq![x]))
    }
}

/// `items` grouped by their folder at `location`, in order of first appearance.
pub open spec fn folder_groups(units: Seq<ChunkUnit>, items: Seq<usize>, location: int) -> Seq<(Seq<char>, Seq<usize>)>
    decreases items.len(),
{
    if items.len() == 0 {
        Seq::empty()
    } else {
        add_to_group(
            folder_groups(units, items.drop_last(), location),
            folder_key(units[items.last() as int].ident@, location),
            items.last(),
        )
    }
}

/// `items` grouped by package name, in order of first appearance.
pub open spec fn package_groups(units: Seq<ChunkUnit>, items: Seq<usize>) -> Seq<(Seq<char>, Seq<usize>)>
    decreases items.len(),
{
    if items.len() == 0 {
        Seq::empty()
    } else {
        add_to_group(package_groups(units, items.drop_last()), package_spec(units[items.last() as int].ident@), items.last())
    }
}

/// No two buckets share a key.
pub open spec fn keys_unique(g: Seq<(Seq<char>, Seq<usize>)>) -> bool {
    forall|a: int, b: int| 0 <= a < b < g.len() ==> (#[trigger] g[a]).0 != (#[trigger] g[b]).0
}

proof fn lemma_key_index_found(g: Seq<(Seq<char>, Seq<usize>)>, k: Seq<char>, b: int)
    requires
        keys_unique(g),
        0 <= b < g.len(),
        g[b].0 == k,
    ensures
        key_index(g, k) == b,
    decreases g.len(),
{
    if b < g.len() - 1 {
        assert(g[b] == g.drop_last()[b]);
        assert(g.last().0 != k) by {
            assert(g[b].0 != g[g.len() - 1].0);
        }
        lemma_key_index_found(g.drop_last(), k, b);
    }
}

proof fn lemma_key_index_absent(g: Seq<(Seq<char>, Seq<usize>)>, k: Seq<char>)
    requires
        forall|i: int| 0 <= i < g.len() ==> g[i].0 != k,
    ensures
        key_index(g, k) == -1,
    decreases g.len(),
{
    if g.len() > 0 {
        assert(g.last().0 != k);
        assert forall|i: int| 0 <= i < g.drop_last().len() implies g.drop_last()[i].0 != k by {
            assert(g.drop_last()[i] == g[i]);
        }
        lemma_key_index_absent(g.drop_last(), k);
    }
}

/// Every unit that `items` points at has an identifier of at least `location` characters.
pub open spec fn reaches(units: Seq<ChunkUnit>, items: Seq<usize>, location: int) -> bool {
    forall|j: int| 0 <= j < items.len() ==> location <= #[trigger] units[items[j] as int].ident@.len()
}

/// A folder bucket: its key is a prefix of each member's identifier, and its
/// next location, if any, is the key's length, past `location`.
pub open spec fn folder_bucket_ok(
    units: Seq<ChunkUnit>,
    e: (Seq<char>, Seq<usize>),
    next: Option<usize>,
    location: int,
    kind: usize,
) -> bool {
    &&& items_ok(units, e.1, kind)
    &&& reaches(units, e.1, location)
    &&& forall|j: int| 0 <= j < e.1.len() ==> e.0.len() <= #[trigger] units[e.1[j] as int].ident@.len()
        && e.0 == units[e.1[j] as int].ident@.subrange(0, e.0.len() as int)
    &&& (next matches Some(n) ==> n == e.0.len() && n > location)
}

/// Groups `items` by their folder at `location`, in order of first appearance.
fn group_by_folder(units: &Vec<ChunkUnit>, items: &Vec<usize>, location: usize, Ghost(kind): Ghost<usize>) -> (r: (
    Vec<(Vec<char>, Vec<usize>)>,
    Vec<Option<usize>>,
))
    requires
        items_ok(units@, items@, kind),
        reaches(units@, items@, location as int),
    ensures
        r.0@.len() == r.1@.len(),
        flat_buckets(entries_view(r.0@)).to_multiset() == items@.to_multiset(),
        forall|b: int| 0 <= b < r.0@.len() ==> folder_bucket_ok(units@, #[trigger] entries_view(r.0@)[b], r.1@[b], location as int, kind),
        entries_view(r.0@) == folder_groups(units@, items@, location as int),
        forall|b: int| 0 <= b < r.0@.len() ==> (#[trigger] r.0@[b]).1@.len() > 0 && r.1@[b] == folder_next(units@[r.0@[b].1@[0] as int].ident@, location as int),
{
    let mut m = new_buckets();
    let mut nexts: Vec<Option<usize>> = Vec::new();
    let mut j: usize = 0;
    while j < items.len()
        invariant
            j <= items@.len(),
            items_ok(units@, items@, kind),
            reaches(units@, items@, location as int),
            buckets_of(m).len() == nexts@.len(),
            flat_buckets(buckets_of(m)).to_multiset() == items@.take(j as int).to_multiset(),
            forall|b: int| 0 <= b < buckets_of(m).len() ==> folder_bucket_ok(units@, #[trigger] buckets_of(m)[b], nexts@[b], location as int, kind),
            buckets_of(m) == folder_groups(units@, items@.take(j as int), location as int),
            keys_unique(buckets_of(m)),
            forall|b: int| 0 <= b < buckets_of(m).len() ==> (#[trigger] buckets_of(m)[b]).1.len() > 0 && nexts@[b] == folder_next(units@[buckets_of(m)[b].1[0] as int].ident@, location as int),
        decreases items@.len() - j,
    {
        let x = items[j];
        assert(items@[j as int] == x);
        let chars = chars_of(units[x].ident.as_str());
        let (folder, next) = folder_of(chars.as_slice(), location);
        let ghost prev = buckets_of(m);
        assert(items@.take(j + 1) =~= items@.take(j as int).push(x));
        proof {
            lemma_folder_spec_unique(units@[x as int].ident@, location as int, folder@, next);
            assert(items@.take(j + 1).drop_last() =~= items@.take(j as int));
        }
        match bucket_index(&m, &folder) {
            Some(b) => {
                push_to_bucket(&mut m, b, x);
                proof {
                    lemma_key_index_found(prev, folder@, b as int);
                    assert(buckets_of(m) =~= folder_groups(units@, items@.take(j + 1), location as int));
                    assert forall|c: int| 0 <= c < buckets_of(m).len() implies (#[trigger] buckets_of(m)[c]).1.len() > 0 && nexts@[c] == folder_next(units@[buckets_of(m)[c].1[0] as int].ident@, location as int) by {
                        if c != b {
                            assert(buckets_of(m)[c] == prev[c]);
                        } else {
                            assert(buckets_of(m)[c].1[0] == prev[c].1[0]);
                        }
                    }
                    assert forall|a: int, c: int| 0 <= a < c < buckets_of(m).len() implies (#[trigger] buckets_of(m)[a]).0 != (#[trigger] buckets_of(m)[c]).0 by {
                        assert(buckets_of(m)[a].0 == prev[a].0);
                        assert(buckets_of(m)[c].0 == prev[c].0);
                        assert(prev[a].0 != prev[c].0);
                    }
                    lemma_flat_buckets_update(prev, b as int, x);
                    assert forall|c: int| 0 <= c < buckets_of(m).len() implies folder_bucket_ok(units@, #[trigger] buckets_of(m)[c], nexts@[c], location as int, kind) by {
                        if c == b {
                            let e = buckets_of(m)[c];
                            assert forall|t: int| 0 <= t < e.1.len() implies #[trigger] e.1[t] < units@.len() && units@[e.1[t] as int].kind == kind by {
                                if t < prev[c].1.len() {
                                    assert(e.1[t] == prev[c].1[t]);
                                }
                            }
                            assert forall|t: int| 0 <= t < e.1.len() implies location <= #[trigger] units@[e.1[t] as int].ident@.len() by {
                                if t < prev[c].1.len() {
                                    assert(e.1[t] == prev[c].1[t]);
                                }
                            }
                            assert forall|t: int| 0 <= t < e.1.len() implies e.0.len() <= #[trigger] units@[e.1[t] as int].ident@.len()
                                && e.0 == units@[e.1[t] as int].ident@.subrange(0, e.0.len() as int) by {
                                if t < prev[c].1.len() {
                                    assert(e.1[t] == prev[c].1[t]);
                                }
                            }
                        } else {
                            assert(buckets_of(m)[c] == prev[c]);
                        }
                    }
                }
            },
            None => {
                let mut list: Vec<usize> = Vec::new();
                list.push(x);
                let ghost key = folder@;
                add_bucket(&mut m, folder, list);
                nexts.push(next);
                proof {
                    lemma_key_index_absent(prev, key);
                    assert(buckets_of(m) =~= folder_groups(units@, items@.take(j + 1), location as int));
                    assert forall|c: int| 0 <= c < buckets_of(m).len() implies (#[trigger] buckets_of(m)[c]).1.len() > 0 && nexts@[c] == folder_next(units@[buckets_of(m)[c].1[0] as int].ident@, location as int) by {
                        if c < prev.len() {
                            assert(buckets_of(m)[c] == prev[c]);
                        }
                    }
                    assert forall|a: int, c: int| 0 <= a < c < buckets_of(m).len() implies (#[trigger] buckets_of(m)[a]).0 != (#[trigger] buckets_of(m)[c]).0 by {
                        if c < prev.len() {
                            assert(prev[a].0 != prev[c].0);
                        } else {
                            assert(buckets_of(m)[a] == prev[a]);
                        }
                    }
                    lemma_flat_buckets_push(prev, (key, list@));
                    assert(list@.to_multiset() =~= Multiset::empty().insert(x));
                    let e = buckets_of(m)[prev.len() as int];
                    assert(e.1 =~= seq![x]);
                    assert(folder_bucket_ok(units@, e, next, location as int, kind));
                    assert forall|c: int| 0 <= c < buckets_of(m).len() implies folder_bucket_ok(units@, #[trigger] buckets_of(m)[c], nexts@[c], location as int, kind) by {
                        if c < prev.len() {
                            assert(buckets_of(m)[c] == prev[c]);
                        }
                    }
                }
            },
        }
        j = j + 1;
    }
    let ghost fin = buckets_of(m);
    let entries = into_entries(m);
    assert(entries_view(entries@) =~= fin);
    assert(items@.take(j as int) =~= items@);
    assert forall|b: int| 0 <= b < entries@.len() implies (#[trigger] entries@[b]).1@.len() > 0 && nexts@[b] == folder_next(units@[entries@[b].1@[0] as int].ident@, location as int) by {
        assert(entries@[b].1@ == fin[b].1);
    }
    (entries, nexts)
}

/// The catch-all chunk of a folder level: the gathered small groups under the
/// name and their common prefix, if any were gathered.
pub open spec fn folder_catch_all(units: Seq<ChunkUnit>, rem: Seq<usize>, location: int, name: Seq<char>) -> Seq<(Seq<char>, Seq<usize>)> {
    if rem.len() > 0 {
        seq![(joined(name, units[rem[0] as int].ident@.subrange(0, location)), rem)]
    } else {
        Seq::empty()
    }
}

/// The chunks that the folder splitter emits for the buckets `g` at `location`.
pub open spec fn folder_out(units: Seq<ChunkUnit>, g: Seq<(Seq<char>, Seq<usize>)>, location: int, name: Seq<char>) -> Seq<(Seq<char>, Seq<usize>)>
    decreases usize::MAX - location, g.len() + 1,
{
    if g.len() == 1 {
        match folder_next(units[g[0].1[0] as int].ident@, location) {
            Some(n) => if location < n {
                folder_out(units, folder_groups(units, g[0].1, n as int), n as int, name)
            } else {
                Seq::empty()
            },
            None => seq![(joined(name, g[0].0), g[0].1)],
        }
    } else {
        let lv = folder_level(units, g, location, name, g.len() as int);
        lv.0 + folder_catch_all(units, lv.1, location, name)
    }
}

/// The chunks emitted for the first `k` buckets of `g`, and the small groups
/// gathered so far.
pub open spec fn folder_level(units: Seq<ChunkUnit>, g: Seq<(Seq<char>, Seq<usize>)>, location: int, name: Seq<char>, k: int) -> (Seq<(Seq<char>, Seq<usize>)>, Seq<usize>)
    decreases usize::MAX - location, k,
{
    if k <= 0 || k > g.len() {
        (Seq::empty(), Seq::empty())
    } else {
        let prev = folder_level(units, g, location, name, k - 1);
        let b = g[k - 1];
        let key = joined(name, b.0);
        match size_class(total_size(units, b.1)) {
            ChunkSize::Large => match folder_next(units[b.1[0] as int].ident@, location) {
                Some(n) => if location < n {
                    (prev.0 + folder_out(units, folder_groups(units, b.1, n as int), n as int, name), prev.1)
                } else {
                    prev
                },
                None => (prev.0.push((key, b.1)), prev.1),
            },
            ChunkSize::Perfect => (prev.0.push((key, b.1)), prev.1),
            ChunkSize::Small => (prev.0, prev.1 + b.1),
        }
    }
}

/// Splits `items` by folder structure from `location` on. A single folder is
/// followed deeper under the same name; a single file emits one chunk. With
/// several folders, each is placed by size, large ones split deeper, and the
/// small ones are gathered into one chunk keyed by the common prefix.
#[verifier::rlimit(50)]
fn folder_split(units: &Vec<ChunkUnit>, items: Vec<usize>, location: usize, name: &Vec<char>, ctx: &mut SplitContext)
    requires
        old(ctx).wf(units@),
        items_ok(units@, items@, old(ctx).kind),
        reaches(units@, items@, location as int),
    ensures
        final(ctx).extends(old(ctx), units@, items@.to_multiset()),
        emits_under(old(ctx).chunks@, final(ctx).chunks@, old(ctx).kind, name@),
        plan_view(final(ctx).chunks@) == plan_view(old(ctx).chunks@) + folder_out(
            units@,
            folder_groups(units@, items@, location as int),
            location as int,
            name@,
        ),
    decreases usize::MAX - location,
{
    let ghost kind = ctx.kind;
    let ghost c0 = ctx.chunks@;
    let (mut groups, mut nexts) = group_by_folder(units, &items, location, Ghost(kind));
    let ghost orig = entries_view(groups@);
    let ghost orig_nexts = nexts@;
    assert forall|b: int| 0 <= b < orig.len() implies (#[trigger] orig[b]).1.len() > 0 && orig_nexts[b] == folder_next(units@[orig[b].1[0] as int].ident@, location as int) by {
        assert(orig[b].1 == groups@[b].1@);
    }
    let ghost p0 = plan_view(ctx.chunks@);
    if groups.len() == 1 {
        assert(orig.take(1) =~= orig);
        proof {
            lemma_flat_buckets_take(orig, 0);
            assert(orig.take(0) =~= Seq::<(Seq<char>, Seq<usize>)>::empty());
        }
        let (folder, list) = groups.remove(0);
        assert(list@ == orig[0].1);
        assert(folder_bucket_ok(units@, orig[0], orig_nexts[0], location as int, kind));
        match nexts.remove(0) {
            Some(next) => {
                folder_split(units, list, next, name, ctx);
            },
            None => {
                let key = join_key(name, folder.as_slice());
                make_chunk(units, list, &key, ctx);
                proof {
                    lemma_joined_prefix(name@, folder@);
                    lemma_emits_chain(c0, c0, ctx.chunks@, kind, name@, key@);
                    assert(folder@ == orig[0].0);
                    assert(plan_view(ctx.chunks@) =~= p0 + seq![(key@, list@)]);
                }
            },
        }
        return;
    }
    let mut remaining: Vec<usize> = Vec::new();
    let ghost start = *ctx;
    let ghost mut k: int = 0;
    while groups.len() > 0
        invariant
            0 <= k <= orig.len(),
            groups@.len() == orig.len() - k,
            nexts@.len() == orig.len() - k,
            orig.len() == orig_nexts.len(),
            forall|t: int| 0 <= t < groups@.len() ==> #[trigger] entries_view(groups@)[t] == orig[k + t],
            forall|t: int| 0 <= t < nexts@.len() ==> #[trigger] nexts@[t] == orig_nexts[k + t],
            forall|b: int| 0 <= b < orig.len() ==> folder_bucket_ok(units@, #[trigger] orig[b], orig_nexts[b], location as int, kind),
            start == *old(ctx),
            ctx.wf(units@),
            ctx.kind == kind,
            ctx.placed().add(remaining@.to_multiset()) == start.placed().add(flat_buckets(orig.take(k)).to_multiset()),
            items_ok(units@, remaining@, kind),
            reaches(units@, remaining@, location as int),
            emits_under(start.chunks@, ctx.chunks@, kind, name@),
            forall|b: int| 0 <= b < orig.len() ==> (#[trigger] orig[b]).1.len() > 0 && orig_nexts[b] == folder_next(units@[orig[b].1[0] as int].ident@, location as int),
            plan_view(ctx.chunks@) == p0 + folder_level(units@, orig, location as int, name@, k).0,
            remaining@ == folder_level(units@, orig, location as int, name@, k).1,
        decreases groups@.len(),
    {
        assert(entries_view(groups@)[0] == orig[k]);
        assert(nexts@[0] == orig_nexts[k]);
        let ghost prev_groups = groups@;
        let (folder, list) = groups.remove(0);
        let next = nexts.remove(0);
        proof {
            assert forall|t: int| 0 <= t < groups@.len() implies #[trigger] entries_view(groups@)[t] == orig[k + 1 + t] by {
                assert(entries_view(prev_groups)[t + 1] == orig[k + t + 1]);
            }
            lemma_flat_buckets_take(orig, k);
        }
        let ghost before_ctx = *ctx;
        let ghost before_rem = remaining@;
        assert(list@ == orig[k].1);
        assert(folder_bucket_ok(units@, orig[k], orig_nexts[k], location as int, kind));
        assert(reaches(units@, list@, location as int));
        let key = join_key(name, folder.as_slice());
        proof {
            lemma_joined_prefix(name@, folder@);
            lemma_prefix_refl(name@);
        }
        let ghost cls = size_class(total_size(units@, list@));
        let ghost lv = folder_level(units@, orig, location as int, name@, k);
        let ghost pv = plan_view(ctx.chunks@);
        assert(folder@ == orig[k].0);
        match place_or_defer(units, list, &key, ctx, &mut remaining) {
            Some(list) => {
                match next {
                    Some(n) => {
                        assert(reaches(units@, list@, n as int));
                        folder_split(units, list, n, name, ctx);
                        assert(plan_view(ctx.chunks@) =~= p0 + folder_level(units@, orig, location as int, name@, k + 1).0);
                    },
                    None => {
                        assert(list@.len() > 0) by {
                            if list@.len() == 0 {
                                assert(total_size(units@, list@) == 0);
                            }
                        }
                        make_chunk(units, list, &key, ctx);
                        proof {
                            lemma_emits_chain(before_ctx.chunks@, before_ctx.chunks@, ctx.chunks@, kind, name@, key@);
                        }
                        assert(plan_view(ctx.chunks@) =~= p0 + folder_level(units@, orig, location as int, name@, k + 1).0);
                    },
                }
                assert(remaining@ == before_rem);
            },
            None => {
                proof {
                    lemma_multiset_commutative(before_rem, orig[k].1);
                    if cls == ChunkSize::Small {
                        assert(ctx.placed() == before_ctx.placed());
                    } else {
                        assert(remaining@ == before_rem);
                        lemma_emits_chain(before_ctx.chunks@, before_ctx.chunks@, ctx.chunks@, kind, name@, key@);
                        assert(plan_view(ctx.chunks@) =~= p0 + folder_level(units@, orig, location as int, name@, k + 1).0);
                    }
                }
            },
        }
        proof {
            lemma_emits_chain(start.chunks@, before_ctx.chunks@, ctx.chunks@, kind, name@, name@);
        }
        assert(ctx.placed().add(remaining@.to_multiset()) =~= before_ctx.placed().add(before_rem.to_multiset()).add(orig[k].1.to_multiset()));
        assert(reaches(units@, remaining@, location as int)) by {
            assert forall|j: int| 0 <= j < remaining@.len() implies location <= #[trigger] units@[remaining@[j] as int].ident@.len() by {
                if j >= before_rem.len() {
                    assert(remaining@[j] == orig[k].1[j - before_rem.len()]);
                } else {
                    assert(remaining@[j] == before_rem[j]);
                }
            }
        }
        assert(ctx.placed().add(remaining@.to_multiset()) =~= start.placed().add(flat_buckets(orig.take(k + 1)).to_multiset()));
        proof {
            k = k + 1;
        }
    }
    assert(orig.take(k) =~= orig);
    if remaining.len() > 0 {
        let first = remaining[0];
        assert(remaining@[0] == first);
        let chars = chars_of(units[first].ident.as_str());
        let prefix = prefix_of(chars.as_slice(), location);
        let key = join_key(name, prefix.as_slice());
        let ghost rem = remaining@;
        let ghost before_ctx = *ctx;
        let ghost pv = plan_view(ctx.chunks@);
        match place_final(units, remaining, &key, ctx) {
            Some(rest) => {
                make_chunk(units, rest, &key, ctx);
            },
            None => {},
        }
        assert(plan_view(ctx.chunks@) =~= p0 + folder_out(units@, orig, location as int, name@));
        proof {
            lemma_joined_prefix(name@, prefix@);
            lemma_emits_chain(c0, before_ctx.chunks@, ctx.chunks@, kind, name@, key@);
        }
        assert(ctx.placed() =~= before_ctx.placed().add(rem.to_multiset()));
        assert(ctx.placed() =~= old(ctx).placed().add(items@.to_multiset()));
    } else {
        assert(remaining@.to_multiset() =~= Multiset::empty());
        assert(ctx.placed() =~= old(ctx).placed().add(items@.to_multiset()));
        assert(plan_view(ctx.chunks@) =~= p0 + folder_out(units@, orig, location as int, name@));
    }
}

/// A package bucket: its members are units of `kind` whose package name is its key.
pub open spec fn package_bucket_ok(units: Seq<ChunkUnit>, e: (Seq<char>, Seq<usize>), kind: usize) -> bool {
    &&& items_ok(units, e.1, kind)
    &&& forall|j: int| 0 <= j < e.1.len() ==> e.0 == package_spec(#[trigger] units[e.1[j] as int].ident@)
}

/// Groups `items` by package name, in order of first appearance.
fn group_by_package(units: &Vec<ChunkUnit>, items: &Vec<usize>, Ghost(kind): Ghost<usize>) -> (r: Vec<(Vec<char>, Vec<usize>)>)
    requires
        items_ok(units@, items@, kind),
    ensures
        flat_buckets(entries_view(r@)).to_multiset() == items@.to_multiset(),
        forall|b: int| 0 <= b < r@.len() ==> package_bucket_ok(units@, #[trigger] entries_view(r@)[b], kind),
        entries_view(r@) == package_groups(units@, items@),
{
    let mut m = new_buckets();
    let mut j: usize = 0;
    while j < items.len()
        invariant
            j <= items@.len(),
            items_ok(units@, items@, kind),
            flat_buckets(buckets_of(m)).to_multiset() == items@.take(j as int).to_multiset(),
            forall|b: int| 0 <= b < buckets_of(m).len() ==> package_bucket_ok(units@, #[trigger] buckets_of(m)[b], kind),
            buckets_of(m) == package_groups(units@, items@.take(j as int)),
            keys_unique(buckets_of(m)),
        decreases items@.len() - j,
    {
        let x = items[j];
        assert(items@[j as int] == x);
        let package = package_name(units[x].ident.as_str());
        let key = chars_of(package.as_str());
        let ghost prev = buckets_of(m);
        assert(items@.take(j + 1) =~= items@.take(j as int).push(x));
        assert(items@.take(j + 1).drop_last() =~= items@.take(j as int));
        match bucket_index(&m, &key) {
            Some(b) => {
                push_to_bucket(&mut m, b, x);
                proof {
                    lemma_key_index_found(prev, key@, b as int);
                    assert(buckets_of(m) =~= package_groups(units@, items@.take(j + 1)));
                    assert forall|a: int, c: int| 0 <= a < c < buckets_of(m).len() implies (#[trigger] buckets_of(m)[a]).0 != (#[trigger] buckets_of(m)[c]).0 by {
                        assert(buckets_of(m)[a].0 == prev[a].0);
                        assert(buckets_of(m)[c].0 == prev[c].0);
                        assert(prev[a].0 != prev[c].0);
                    }
                    lemma_flat_buckets_update(prev, b as int, x);
                    assert forall|c: int| 0 <= c < buckets_of(m).len() implies package_bucket_ok(units@, #[trigger] buckets_of(m)[c], kind) by {
                        if c == b {
                            let e = buckets_of(m)[c];
                            assert forall|t: int| 0 <= t < e.1.len() implies #[trigger] e.1[t] < units@.len() && units@[e.1[t] as int].kind == kind by {
                                if t < prev[c].1.len() {
                                    assert(e.1[t] == prev[c].1[t]);
                                }
                            }
                            assert forall|t: int| 0 <= t < e.1.len() implies e.0 == package_spec(#[trigger] units@[e.1[t] as int].ident@) by {
                                if t < prev[c].1.len() {
                                    assert(e.1[t] == prev[c].1[t]);
                                }
                            }
                        } else {
                            assert(buckets_of(m)[c] == prev[c]);
                        }
                    }
                }
            },
            None => {
                let mut list: Vec<usize> = Vec::new();
                list.push(x);
                let ghost k = key@;
                add_bucket(&mut m, key, list);
                proof {
                    lemma_key_index_absent(prev, k);
                    assert(buckets_of(m) =~= package_groups(units@, items@.take(j + 1)));
                    assert forall|a: int, c: int| 0 <= a < c < buckets_of(m).len() implies (#[trigger] buckets_of(m)[a]).0 != (#[trigger] buckets_of(m)[c]).0 by {
                        if c < prev.len() {
                            assert(prev[a].0 != prev[c].0);
                        } else {
                            assert(buckets_of(m)[a] == prev[a]);
                        }
                    }
                    lemma_flat_buckets_push(prev, (k, list@));
                    assert(list@.to_multiset() =~= Multiset::empty().insert(x));
                    let e = buckets_of(m)[prev.len() as int];
                    assert(e.1 =~= seq![x]);
                    assert(package_bucket_ok(units@, e, kind));
                    assert forall|c: int| 0 <= c < buckets_of(m).len() implies package_bucket_ok(units@, #[trigger] buckets_of(m)[c], kind) by {
                        if c < prev.len() {
                            assert(buckets_of(m)[c] == prev[c]);
                        }
                    }
                }
            },
        }
        j = j + 1;
    }
    let ghost fin = buckets_of(m);
    let entries = into_entries(m);
    assert(entries_view(entries@) =~= fin);
    assert(items@.take(j as int) =~= items@);
    entries
}

/// The chunks that the folder splitter emits for `items` from `location` on.
pub open spec fn folder_split_out(units: Seq<ChunkUnit>, items: Seq<usize>, location: int, name: Seq<char>) -> Seq<(Seq<char>, Seq<usize>)> {
    folder_out(units, folder_groups(units, items, location), location, name)
}

/// The chunks emitted for the first `k` package buckets of `g`, and the small
/// groups gathered so far.
pub open spec fn package_level(units: Seq<ChunkUnit>, g: Seq<(Seq<char>, Seq<usize>)>, name: Seq<char>, k: int) -> (Seq<(Seq<char>, Seq<usize>)>, Seq<usize>)
    decreases k,
{
    if k <= 0 || k > g.len() {
        (Seq::empty(), Seq::empty())
    } else {
        let prev = package_level(units, g, name, k - 1);
        let b = g[k - 1];
        let key = joined(name, b.0);
        match size_class(total_size(units, b.1)) {
            ChunkSize::Large => (prev.0 + folder_split_out(units, b.1, 0, key), prev.1),
            ChunkSize::Perfect => (prev.0.push((key, b.1)), prev.1),
            ChunkSize::Small => (prev.0, prev.1 + b.1),
        }
    }
}

/// The chunks that the package splitter emits for `items` under `name`.
pub open spec fn package_split_out(units: Seq<ChunkUnit>, items: Seq<usize>, name: Seq<char>) -> Seq<(Seq<char>, Seq<usize>)> {
    let g = package_groups(units, items);
    let lv = package_level(units, g, name, g.len() as int);
    lv.0 + if lv.1.len() == 0 {
        Seq::empty()
    } else if size_class(total_size(units, lv.1)) == ChunkSize::Large {
        folder_split_out(units, lv.1, 0, name)
    } else {
        seq![(name, lv.1)]
    }
}

/// Splits `items` by package name. Each package is placed by size and large
/// ones are split by folder; the small ones are gathered under `name`.
fn package_name_split(units: &Vec<ChunkUnit>, items: Vec<usize>, name: &Vec<char>, ctx: &mut SplitContext)
    requires
        old(ctx).wf(units@),
        items_ok(units@, items@, old(ctx).kind),
    ensures
        final(ctx).extends(old(ctx), units@, items@.to_multiset()),
        emits_under(old(ctx).chunks@, final(ctx).chunks@, old(ctx).kind, name@),
        plan_view(final(ctx).chunks@) == plan_view(old(ctx).chunks@) + package_split_out(units@, items@, name@),
{
    let ghost kind = ctx.kind;
    let ghost c0 = ctx.chunks@;
    let mut groups = group_by_package(units, &items, Ghost(kind));
    let ghost orig = entries_view(groups@);
    let ghost p0 = plan_view(ctx.chunks@);
    let mut remaining: Vec<usize> = Vec::new();
    let ghost start = *ctx;
    let ghost mut k: int = 0;
    while groups.len() > 0
        invariant
            0 <= k <= orig.len(),
            groups@.len() == orig.len() - k,
            forall|t: int| 0 <= t < groups@.len() ==> #[trigger] entries_view(groups@)[t] == orig[k + t],
            forall|b: int| 0 <= b < orig.len() ==> package_bucket_ok(units@, #[trigger] orig[b], kind),
            start == *old(ctx),
            ctx.wf(units@),
            ctx.kind == kind,
            ctx.placed().add(remaining@.to_multiset()) == start.placed().add(flat_buckets(orig.take(k)).to_multiset()),
            items_ok(units@, remaining@, kind),
            emits_under(start.chunks@, ctx.chunks@, kind, name@),
            plan_view(ctx.chunks@) == p0 + package_level(units@, orig, name@, k).0,
            remaining@ == package_level(units@, orig, name@, k).1,
        decreases groups@.len(),
    {
        assert(entries_view(groups@)[0] == orig[k]);
        let ghost prev_groups = groups@;
        let (package, list) = groups.remove(0);
        proof {
            assert forall|t: int| 0 <= t < groups@.len() implies #[trigger] entries_view(groups@)[t] == orig[k + 1 + t] by {
                assert(entries_view(prev_groups)[t + 1] == orig[k + t + 1]);
            }
            lemma_flat_buckets_take(orig, k);
        }
        let ghost before_ctx = *ctx;
        let ghost before_rem = remaining@;
        assert(list@ == orig[k].1);
        assert(package_bucket_ok(units@, orig[k], kind));
        let key = join_key(name, package.as_slice());
        proof {
            lemma_joined_prefix(name@, package@);
            lemma_prefix_refl(name@);
        }
        let ghost cls = size_class(total_size(units@, list@));
        assert(package@ == orig[k].0);
        match place_or_defer(units, list, &key, ctx, &mut remaining) {
            Some(list) => {
                folder_split(units, list, 0, &key, ctx);
                assert(remaining@ == before_rem);
                assert(plan_view(ctx.chunks@) =~= p0 + package_level(units@, orig, name@, k + 1).0);
                proof {
                    lemma_emits_chain(before_ctx.chunks@, before_ctx.chunks@, ctx.chunks@, kind, name@, key@);
                }
            },
            None => {
                proof {
                    lemma_multiset_commutative(before_rem, orig[k].1);
                    if cls == ChunkSize::Small {
                        assert(ctx.placed() == before_ctx.placed());
                    } else {
                        assert(remaining@ == before_rem);
                        lemma_emits_chain(before_ctx.chunks@, before_ctx.chunks@, ctx.chunks@, kind, name@, key@);
                        assert(plan_view(ctx.chunks@) =~= p0 + package_level(units@, orig, name@, k + 1).0);
                    }
                }
            },
        }
        proof {
            lemma_emits_chain(start.chunks@, before_ctx.chunks@, ctx.chunks@, kind, name@, name@);
        }
        assert(ctx.placed().add(remaining@.to_multiset()) =~= before_ctx.placed().add(before_rem.to_multiset()).add(orig[k].1.to_multiset()));
        assert(ctx.placed().add(remaining@.to_multiset()) =~= start.placed().add(flat_buckets(orig.take(k + 1)).to_multiset()));
        proof {
            k = k + 1;
        }
    }
    assert(orig.take(k) =~= orig);
    if remaining.len() > 0 {
        let ghost rem = remaining@;
        let ghost before_ctx = *ctx;
        match place_final(units, remaining, name, ctx) {
            Some(rest) => {
                folder_split(units, rest, 0, name, ctx);
            },
            None => {},
        }
        assert(plan_view(ctx.chunks@) =~= p0 + package_split_out(units@, items@, name@));
        proof {
            lemma_prefix_refl(name@);
            lemma_emits_chain(c0, before_ctx.chunks@, ctx.chunks@, kind, name@, name@);
        }
        assert(ctx.placed() =~= before_ctx.placed().add(rem.to_multiset()));
        assert(ctx.placed() =~= old(ctx).placed().add(items@.to_multiset()));
    } else {
        assert(remaining@.to_multiset() =~= Multiset::empty());
        assert(ctx.placed() =~= old(ctx).placed().add(items@.to_multiset()));
        assert(plan_view(ctx.chunks@) =~= p0 + package_split_out(units@, items@, name@));
    }
}

/// The items whose identifier lacks the vendor marker, in order.
pub open spec fn app_part(units: Seq<ChunkUnit>, items: Seq<usize>) -> Seq<usize>
    decreases items.len(),
{
    if items.len() == 0 {
        Seq::empty()
    } else if !contains_seq(units[items.last() as int].ident@, marker()) {
        app_part(units, items.drop_last()).push(items.last())
    } else {
        app_part(units, items.drop_last())
    }
}

/// The items whose identifier holds the vendor marker, in order.
pub open spec fn vendor_part(units: Seq<ChunkUnit>, items: Seq<usize>) -> Seq<usize>
    decreases items.len(),
{
    if items.len() == 0 {
        Seq::empty()
    } else if contains_seq(units[items.last() as int].ident@, marker()) {
        vendor_part(units, items.drop_last()).push(items.last())
    } else {
        vendor_part(units, items.drop_last())
    }
}

/// The chunks that the app/vendor splitter emits for `items` under `name`.
pub open spec fn app_vendors_out(units: Seq<ChunkUnit>, items: Seq<usize>, name: Seq<char>) -> Seq<(Seq<char>, Seq<usize>)> {
    let app = app_part(units, items);
    let vendors = vendor_part(units, items);
    let app_key = joined(name, seq!['a', 'p', 'p']);
    let vendors_key = joined(name, seq!['v', 'e', 'n', 'd', 'o', 'r', 's']);
    let first = match size_class(total_size(units, app)) {
        ChunkSize::Large => (folder_split_out(units, app, 0, app_key), Seq::<usize>::empty()),
        ChunkSize::Perfect => (seq![(app_key, app)], Seq::<usize>::empty()),
        ChunkSize::Small => (Seq::empty(), app),
    };
    let second = match size_class(total_size(units, vendors)) {
        ChunkSize::Large => (package_split_out(units, vendors, vendors_key), first.1),
        ChunkSize::Perfect => (seq![(vendors_key, vendors)], first.1),
        ChunkSize::Small => (Seq::empty(), first.1 + vendors),
    };
    let rem = second.1;
    first.0 + second.0 + if rem.len() == 0 {
        Seq::empty()
    } else if size_class(total_size(units, rem)) == ChunkSize::Large {
        package_split_out(units, rem, name)
    } else {
        seq![(name, rem)]
    }
}

/// Splits `items` into app code and vendor code. Large app code is split by
/// folder, large vendor code by package; the small ones are gathered under
/// `name`, and split by package where together they are large.
fn app_vendors_split(units: &Vec<ChunkUnit>, items: Vec<usize>, name: &Vec<char>, ctx: &mut SplitContext)
    requires
        old(ctx).wf(units@),
        items_ok(units@, items@, old(ctx).kind),
    ensures
        final(ctx).extends(old(ctx), units@, items@.to_multiset()),
        emits_under(old(ctx).chunks@, final(ctx).chunks@, old(ctx).kind, name@),
        plan_view(final(ctx).chunks@) == plan_view(old(ctx).chunks@) + app_vendors_out(units@, items@, name@),
{
    let ghost kind = ctx.kind;
    let mut app: Vec<usize> = Vec::new();
    let mut vendors: Vec<usize> = Vec::new();
    let mut j: usize = 0;
    while j < items.len()
        invariant
            j <= items@.len(),
            items_ok(units@, items@, kind),
            items_ok(units@, app@, kind),
            items_ok(units@, vendors@, kind),
            app@.to_multiset().add(vendors@.to_multiset()) == items@.take(j as int).to_multiset(),
            forall|t: int| 0 <= t < app@.len() ==> !contains_seq(#[trigger] units@[app@[t] as int].ident@, marker()),
            forall|t: int| 0 <= t < vendors@.len() ==> contains_seq(#[trigger] units@[vendors@[t] as int].ident@, marker()),
            app@ == app_part(units@, items@.take(j as int)),
            vendors@ == vendor_part(units@, items@.take(j as int)),
        decreases items@.len() - j,
    {
        let x = items[j];
        assert(items@[j as int] == x);
        assert(items@.take(j + 1) =~= items@.take(j as int).push(x));
        assert(items@.take(j + 1).drop_last() =~= items@.take(j as int));
        if is_app_code(units[x].ident.as_str()) {
            app.push(x);
        } else {
            vendors.push(x);
        }
        assert(app@.to_multiset().add(vendors@.to_multiset()) =~= items@.take(j + 1).to_multiset());
        j = j + 1;
    }
    assert(items@.take(j as int) =~= items@);
    let ghost p0 = plan_view(ctx.chunks@);
    let ghost app_s = app@;
    let ghost vendors_s = vendors@;
    let ghost app_ms = app@.to_multiset();
    let ghost vendors_ms = vendors@.to_multiset();
    let mut remaining: Vec<usize> = Vec::new();
    let app_label = vec!['a', 'p', 'p'];
    assert(app_label@ =~= seq!['a', 'p', 'p']);
    let app_key = join_key(name, app_label.as_slice());
    let ghost c0 = *ctx;
    proof {
        lemma_joined_prefix(name@, app_label@);
        lemma_prefix_refl(name@);
    }
    match place_or_defer(units, app, &app_key, ctx, &mut remaining) {
        Some(list) => {
            folder_split(units, list, 0, &app_key, ctx);
        },
        None => {},
    }
    proof {
        lemma_emits_chain(c0.chunks@, c0.chunks@, ctx.chunks@, kind, name@, app_key@);
    }
    assert(remaining@ =~= Seq::<usize>::empty() + remaining@);
    assert(ctx.placed().add(remaining@.to_multiset()) =~= c0.placed().add(app_ms));
    let ghost c1 = *ctx;
    let ghost r1 = remaining@;
    let vendors_label = vec!['v', 'e', 'n', 'd', 'o', 'r', 's'];
    assert(vendors_label@ =~= seq!['v', 'e', 'n', 'd', 'o', 'r', 's']);
    let ghost p1 = plan_view(ctx.chunks@);
    let vendors_key = join_key(name, vendors_label.as_slice());
    let ghost vs = vendors@;
    proof {
        lemma_joined_prefix(name@, vendors_label@);
    }
    match place_or_defer(units, vendors, &vendors_key, ctx, &mut remaining) {
        Some(list) => {
            package_name_split(units, list, &vendors_key, ctx);
        },
        None => {
            proof {
                lemma_multiset_commutative(r1, vs);
            }
        },
    }
    proof {
        lemma_emits_chain(c1.chunks@, c1.chunks@, ctx.chunks@, kind, name@, vendors_key@);
        lemma_emits_chain(c0.chunks@, c1.chunks@, ctx.chunks@, kind, name@, name@);
    }
    assert(ctx.placed().add(remaining@.to_multiset()) =~= c1.placed().add(r1.to_multiset()).add(vendors_ms));
    if remaining.len() > 0 {
        let ghost rem = remaining@;
        let ghost c2 = *ctx;
        let ghost p2 = plan_view(ctx.chunks@);
        match place_final(units, remaining, name, ctx) {
            Some(rest) => {
                package_name_split(units, rest, name, ctx);
            },
            None => {},
        }
        assert(plan_view(ctx.chunks@) =~= p2 + if size_class(total_size(units@, rem)) == ChunkSize::Large {
            package_split_out(units@, rem, name@)
        } else {
            seq![(name@, rem)]
        });
        proof {
            lemma_emits_chain(c0.chunks@, c2.chunks@, ctx.chunks@, kind, name@, name@);
        }
        assert(ctx.placed() =~= c2.placed().add(rem.to_multiset()));
    } else {
        assert(remaining@.to_multiset() =~= Multiset::empty());
    }
    assert(ctx.placed() =~= old(ctx).placed().add(items@.to_multiset()));
    assert(plan_view(ctx.chunks@) =~= p0 + app_vendors_out(units@, items@, name@));
}

/// The units of kind `k` among the first `to`, in order.
pub open spec fn of_kind(units: Seq<ChunkUnit>, k: usize, to: int) -> Seq<usize>
    decreases to,
{
    if to <= 0 {
        Seq::empty()
    } else if units[to - 1].kind == k {
        of_kind(units, k, to - 1).push((to - 1) as usize)
    } else {
        of_kind(units, k, to - 1)
    }
}

/// Unit `i` is the first of its kind.
pub open spec fn first_of_kind(units: Seq<ChunkUnit>, i: int) -> bool {
    forall|j: int| 0 <= j < i ==> units[j].kind != units[i].kind
}

/// The chunks for the kinds first seen among the first `i` units: each kind,
/// in order of first appearance, split under `prefix` and its name.
pub open spec fn chunks_out(units: Seq<ChunkUnit>, kind_names: Seq<String>, prefix: Seq<char>, i: int) -> Seq<(Seq<char>, Seq<usize>)>
    decreases i,
{
    if i <= 0 {
        Seq::empty()
    } else {
        let k = units[i - 1].kind;
        chunks_out(units, kind_names, prefix, i - 1) + if first_of_kind(units, i - 1) {
            app_vendors_out(units, of_kind(units, k, units.len() as int), prefix + kind_names[k as int]@)
        } else {
            Seq::empty()
        }
    }
}

proof fn lemma_of_kind_none(units: Seq<ChunkUnit>, k: usize, to: int)
    requires
        forall|j: int| 0 <= j < to ==> units[j].kind != k,
    ensures
        of_kind(units, k, to) == Seq::<usize>::empty(),
    decreases to,
{
    if to > 0 {
        lemma_of_kind_none(units, k, to - 1);
    }
}

/// Every unit names a kind that `kind_names` has.
pub open spec fn kinds_ok(units: Seq<ChunkUnit>, n_kinds: int) -> bool {
    forall|i: int| 0 <= i < units.len() ==> #[trigger] units[i].kind < n_kinds
}

/// Partitions `units` into chunks. Units are grouped by kind in order of first
/// appearance; each kind is split under the key `key_prefix` followed by its
/// name. Every unit lands in exactly one chunk, chunks never mix kinds, and the
/// first chunk alone carries the auxiliary referenced assets.
pub fn make_chunks(units: &Vec<ChunkUnit>, kind_names: &Vec<String>, key_prefix: &str) -> (r: Vec<ChunkPlan>)
    requires
        kinds_ok(units@, kind_names@.len() as int),
    ensures
        forall|x: usize| #[trigger] flat(r@).to_multiset().count(x) == if x < units@.len() { 1nat } else { 0nat },
        members_ok(units@, r@),
        side_refs_ok(r@),
        nonempty_chunks(r@),
        units@.len() > 0 <==> r@.len() > 0,
        forall|i: int| 0 <= i < r@.len() ==> (#[trigger] r@[i]).kind < kind_names@.len()
            && (key_prefix@ + kind_names@[r@[i].kind as int]@).is_prefix_of(r@[i].key@),
        plan_view(r@) == chunks_out(units@, kind_names@, key_prefix@, units@.len() as int),
{
    let n = units.len();
    let mut seen: Vec<bool> = Vec::new();
    while seen.len() < kind_names.len()
        invariant
            seen@.len() <= kind_names@.len(),
            forall|k: int| 0 <= k < seen@.len() ==> !#[trigger] seen@[k],
        decreases kind_names@.len() - seen@.len(),
    {
        seen.push(false);
    }
    let prefix = chars_of(key_prefix);
    let mut ctx = SplitContext { kind: 0, chunks: Vec::new() };
    assert(flat(ctx.chunks@) =~= Seq::<usize>::empty());
    let mut i: usize = 0;
    while i < n
        invariant
            n == units@.len(),
            i <= n,
            kinds_ok(units@, kind_names@.len() as int),
            seen@.len() == kind_names@.len(),
            ctx.wf(units@),
            n == 0 ==> ctx.chunks@.len() == 0,
            forall|k: int| 0 <= k < seen@.len() && #[trigger] seen@[k] ==> exists|j: int| 0 <= j < i && units@[j].kind == k,
            plan_view(ctx.chunks@) == chunks_out(units@, kind_names@, key_prefix@, i as int),
            prefix@ == key_prefix@,
            forall|c: int| 0 <= c < ctx.chunks@.len() ==> (#[trigger] ctx.chunks@[c]).kind < kind_names@.len()
                && (key_prefix@ + kind_names@[ctx.chunks@[c].kind as int]@).is_prefix_of(ctx.chunks@[c].key@),
            forall|j: int| 0 <= j < i ==> #[trigger] seen@[units@[j].kind as int],
            forall|x: usize| #[trigger] ctx.placed().count(x) == if x < n && seen@[units@[x as int].kind as int] { 1nat } else { 0nat },
        decreases n - i,
    {
        let k = units[i].kind;
        assert(units@[i as int].kind == k);
        let ghost p_before = plan_view(ctx.chunks@);
        if !seen[k] {
            assert(first_of_kind(units@, i as int)) by {
                assert forall|j: int| 0 <= j < i implies units@[j].kind != units@[i as int].kind by {
                    assert(seen@[units@[j].kind as int]);
                }
            }
            proof {
                lemma_of_kind_none(units@, k, i as int);
            }
            assert(ctx.placed() == flat(ctx.chunks@).to_multiset());
            let mut items: Vec<usize> = Vec::new();
            let mut j: usize = i;
            assert forall|x: usize| #[trigger] items@.to_multiset().count(x) == if i <= x < j && units@[x as int].kind == k { 1nat } else { 0nat } by {}
            while j < n
                invariant
                    n == units@.len(),
                    i <= j <= n,
                    items_ok(units@, items@, k),
                    items@ == of_kind(units@, k, j as int),
                    forall|x: usize| #[trigger] items@.to_multiset().count(x) == if i <= x < j && units@[x as int].kind == k { 1nat } else { 0nat },
                decreases n - j,
            {
                if units[j].kind == k {
                    items.push(j);
                }
                j = j + 1;
            }
            let names = chars_of(kind_names[k].as_str());
            let name = concat(prefix.as_slice(), names.as_slice());
            let ghost before = ctx.placed();
            ctx.kind = k;
            let ghost items_ms = items@.to_multiset();
            let ghost seen_old = seen@;
            let ghost chunks_old = ctx.chunks@;
            app_vendors_split(units, items, &name, &mut ctx);
            assert forall|c: int| 0 <= c < ctx.chunks@.len() implies (#[trigger] ctx.chunks@[c]).kind < kind_names@.len()
                && (key_prefix@ + kind_names@[ctx.chunks@[c].kind as int]@).is_prefix_of(ctx.chunks@[c].key@) by {
                if c < chunks_old.len() {
                    assert(ctx.chunks@[c] == chunks_old[c]);
                }
            }
            seen.set(k, true);
            assert(plan_view(ctx.chunks@) =~= chunks_out(units@, kind_names@, key_prefix@, i + 1));
            assert forall|kk: int| 0 <= kk < seen@.len() && #[trigger] seen@[kk] implies exists|j: int| 0 <= j < i + 1 && units@[j].kind == kk by {
                if kk == k {
                    assert(units@[i as int].kind == kk);
                } else {
                    assert(seen_old[kk]);
                }
            }
            assert forall|x: usize| #[trigger] ctx.placed().count(x) == if x < n && seen@[units@[x as int].kind as int] { 1nat } else { 0nat } by {
                assert(ctx.placed().count(x) == before.count(x) + items_ms.count(x));
                assert(before.count(x) == if x < n && seen_old[units@[x as int].kind as int] { 1nat } else { 0nat });
                if x < n {
                    assert(units@[x as int].kind < seen@.len());
                    if units@[x as int].kind == k && x < i {
                        assert(seen_old[units@[x as int].kind as int]);
                    }
                }
            }
        }
        else {
            assert(!first_of_kind(units@, i as int));
            assert(plan_view(ctx.chunks@) =~= chunks_out(units@, kind_names@, key_prefix@, i + 1));
        }
        i = i + 1;
    }
    assert forall|x: usize| #[trigger] flat(ctx.chunks@).to_multiset().count(x) == if x < n { 1nat } else { 0nat } by {
        assert(ctx.placed().count(x) == if x < n && seen@[units@[x as int].kind as int] { 1nat } else { 0nat });
        if x < n {
            assert(seen@[units@[x as int].kind as int]);
        }
    }
    let r = ctx.chunks;
    proof {
        if r@.len() == 0 {
            assert(flat(r@) =~= Seq::<usize>::empty());
            if n > 0 {
                assert(seen@[units@[0].kind as int]);
                assert(flat(r@).to_multiset().count(0usize) == 1);
            }
        }
    }
    r
}

proof fn lemma_absent_from_flat(cs: Seq<ChunkPlan>, x: usize)
    requires
        flat(cs).to_multiset().count(x) == 0,
    ensures
        forall|j: int| 0 <= j < cs.len() ==> !(#[trigger] cs[j].members@).contains(x),
    decreases cs.len(),
{
    if cs.len() > 0 {
        lemma_multiset_commutative(flat(cs.drop_last()), cs.last().members@);
        lemma_absent_from_flat(cs.drop_last(), x);
        assert forall|j: int| 0 <= j < cs.len() implies !(#[trigger] cs[j].members@).contains(x) by {
            if j < cs.len() - 1 {
                assert(cs[j] == cs.drop_last()[j]);
            }
        }
    }
}

/// A unit that occurs once among all members lies in exactly one chunk: with
/// the contract of `make_chunks`, every input unit lies in exactly one output
/// chunk.
pub proof fn lemma_unit_in_one_chunk(cs: Seq<ChunkPlan>, x: usize)
    requires
        flat(cs).to_multiset().count(x) == 1,
    ensures
        exists|i: int|
            0 <= i < cs.len() && (#[trigger] cs[i].members@).contains(x) && forall|j: int|
                0 <= j < cs.len() && j != i ==> !(#[trigger] cs[j].members@).contains(x),
    decreases cs.len(),
{
    let d = cs.drop_last();
    let last = cs.last().members@;
    lemma_multiset_commutative(flat(d), last);
    assert(flat(cs) == flat(d) + last);
    if last.to_multiset().count(x) == 1 {
        lemma_absent_from_flat(d, x);
        let i = cs.len() - 1;
        assert(cs[i].members@.contains(x));
        assert forall|j: int| 0 <= j < cs.len() && j != i implies !(#[trigger] cs[j].members@).contains(x) by {
            assert(cs[j] == d[j]);
        }
    } else {
        lemma_unit_in_one_chunk(d, x);
        let i = choose|i: int|
            0 <= i < d.len() && (#[trigger] d[i].members@).contains(x) && forall|j: int|
                0 <= j < d.len() && j != i ==> !(#[trigger] d[j].members@).contains(x);
        assert(cs[i] == d[i]);
        assert(!last.contains(x));
        assert forall|j: int| 0 <= j < cs.len() && j != i implies !(#[trigger] cs[j].members@).contains(x) by {
            if j < d.len() {
                assert(cs[j] == d[j]);
            }
        }
    }
}

/// Two runs of `make_chunks` on the same units, kind names and key prefix give
/// the same chunks, in the same order: the same kinds, keys and members, and the
/// auxiliary assets on the same chunk.
pub proof fn lemma_same_input_same_chunks(
    units: Seq<ChunkUnit>,
    kind_names: Seq<String>,
    key_prefix: Seq<char>,
    r1: Seq<ChunkPlan>,
    r2: Seq<ChunkPlan>,
)
    requires
        plan_view(r1) == chunks_out(units, kind_names, key_prefix, units.len() as int),
        plan_view(r2) == chunks_out(units, kind_names, key_prefix, units.len() as int),
        side_refs_ok(r1),
        side_refs_ok(r2),
        members_ok(units, r1),
        members_ok(units, r2),
        nonempty_chunks(r1),
        nonempty_chunks(r2),
    ensures
        r1.len() == r2.len(),
        forall|i: int| 0 <= i < r1.len() ==> (#[trigger] r1[i]).key@ == r2[i].key@ && r1[i].members@ == r2[i].members@
            && r1[i].side_refs == r2[i].side_refs && r1[i].kind == r2[i].kind,
{
    assert(plan_view(r1).len() == r1.len());
    assert forall|i: int| 0 <= i < r1.len() implies (#[trigger] r1[i]).key@ == r2[i].key@ && r1[i].members@ == r2[i].members@
        && r1[i].side_refs == r2[i].side_refs && r1[i].kind == r2[i].kind by {
        assert(plan_view(r1)[i] == plan_view(r2)[i]);
        assert(r1[i].members@.len() > 0);
        assert(items_ok(units, r1[i].members@, r1[i].kind));
        assert(items_ok(units, r2[i].members@, r2[i].kind));
        assert(r1[i].members@[0] == r2[i].members@[0]);
    }
}

/// The members of the small groups among the first `k` of `g`, in order.
pub open spec fn small_groups(units: Seq<ChunkUnit>, g: Seq<(Seq<char>, Seq<usize>)>, k: int) -> Seq<usize>
    decreases k,
{
    if k <= 0 || k > g.len() {
        Seq::empty()
    } else {
        small_groups(units, g, k - 1) + if size_class(total_size(units, g[k - 1].1)) == ChunkSize::Small {
            g[k - 1].1
        } else {
            Seq::empty()
        }
    }
}

/// At a folder level, the groups gathered for the level's one catch-all chunk
/// are exactly its small groups, in order: no small group is emitted alone.
pub proof fn lemma_folder_level_gathers_small(
    units: Seq<ChunkUnit>,
    g: Seq<(Seq<char>, Seq<usize>)>,
    location: int,
    name: Seq<char>,
    k: int,
)
    requires
        0 <= k <= g.len(),
    ensures
        folder_level(units, g, location, name, k).1 == small_groups(units, g, k),
    decreases k,
{
    if k > 0 {
        lemma_folder_level_gathers_small(units, g, location, name, k - 1);
        assert(folder_level(units, g, location, name, k).1 =~= small_groups(units, g, k));
    }
}

/// At a package level, the groups gathered for the level's one catch-all are
/// exactly its small packages, in order: no small package is emitted alone.
pub proof fn lemma_package_level_gathers_small(units: Seq<ChunkUnit>, g: Seq<(Seq<char>, Seq<usize>)>, name: Seq<char>, k: int)
    requires
        0 <= k <= g.len(),
    ensures
        package_level(units, g, name, k).1 == small_groups(units, g, k),
    decreases k,
{
    if k > 0 {
        lemma_package_level_gathers_small(units, g, name, k - 1);
        assert(package_level(units, g, name, k).1 =~= small_groups(units, g, k));
    }
}

} // verus!
