//! The merged operation set of an interface and the request-routing rule
//! that generated proxies and dispatchers follow: an interface exposes the
//! de-duplicated union of its own operations and those of all its bases,
//! and a request naming an operation outside that union is a reportable
//! `UnknownOperation` fault, never a crash.
use vstd::prelude::*;

use crate::ast::Entity;
use crate::ast::Operation;
use crate::ast::wf_entities;

verus! {

/// Protocol-level fault surfaced to the remote caller by a dispatcher.
#[derive(Clone, Copy, PartialEq, Eq, Structural, Debug)]
pub enum DispatchFault {
    UnknownOperation,
}

pub open spec fn ops_of(entities: Seq<Entity>, i: int) -> Seq<Operation> {
    match entities[i] {
        Entity::Interface(f) => f.ops@,
        _ => Seq::empty(),
    }
}

pub open spec fn bases_of(entities: Seq<Entity>, i: int) -> Seq<usize> {
    match entities[i] {
        Entity::Interface(f) => f.bases@,
        _ => Seq::empty(),
    }
}

/// All operations reachable from interface `i`: inherited ones first (bases
/// in declaration order, each base contributing its own reachable set), then
/// the interface's own. Duplicate names are still present here. Totalized:
/// a base link that does not point strictly backwards contributes nothing,
/// so the function is well defined even off the well-formed domain.
pub open spec fn raw_ops(entities: Seq<Entity>, i: int) -> Seq<Operation>
    decreases i, bases_of(entities, i).len() + 1,
{
    bases_raw_ops(entities, bases_of(entities, i), i) + ops_of(entities, i)
}

pub open spec fn bases_raw_ops(entities: Seq<Entity>, bases: Seq<usize>, i: int) -> Seq<Operation>
    decreases i, bases.len(),
{
    if bases.len() == 0 {
        Seq::empty()
    } else {
        bases_raw_ops(entities, bases.drop_last(), i) + if 0 <= (bases.last() as int) < i {
            raw_ops(entities, bases.last() as int)
        } else {
            Seq::empty()
        }
    }
}

/// Whether one of the first `upto` operations of `s` is named `name`.
pub open spec fn has_op(s: Seq<Operation>, upto: int, name: Seq<char>) -> bool {
    exists|j: int| 0 <= j < upto && s[j].name@ == name
}

/// De-duplication by name, keeping the first occurrence of each name and
/// the order of first occurrences.
pub open spec fn dedup_ops(s: Seq<Operation>) -> Seq<Operation>
    decreases s.len(),
{
    if s.len() == 0 {
        Seq::empty()
    } else {
        dedup_ops(s.drop_last()) + if has_op(s, s.len() - 1, s.last().name@) {
            Seq::empty()
        } else {
            seq![s.last()]
        }
    }
}

/// The merged operation set of interface `i`: the de-duplicated union of
/// its own and all inherited operations. This is the set a generated proxy
/// exposes and a generated dispatcher routes.
pub open spec fn merged_ops(entities: Seq<Entity>, i: int) -> Seq<Operation> {
    dedup_ops(raw_ops(entities, i))
}

/// De-duplication keeps exactly the names that were present.
pub proof fn lemma_dedup_same_names(s: Seq<Operation>, name: Seq<char>)
    ensures
        has_op(dedup_ops(s), dedup_ops(s).len() as int, name) <==> has_op(s, s.len() as int, name),
    decreases s.len(),
{
    if s.len() == 0 {
    } else {
        let prefix = s.drop_last();
        lemma_dedup_same_names(prefix, name);
        assert forall|j: int| 0 <= j < prefix.len() implies prefix[j] == s[j] by {}
        let d = dedup_ops(s);
        let dp = dedup_ops(prefix);
        if has_op(s, s.len() - 1, s.last().name@) {
            assert(d == dp);
            if has_op(s, s.len() as int, name) {
                if s.last().name@ == name {
                    let w = choose|j: int| 0 <= j < s.len() - 1 && s[j].name@ == s.last().name@;
                    assert(prefix[w].name@ == name);
                } else {
                    let w = choose|j: int| 0 <= j < s.len() && s[j].name@ == name;
                    assert(prefix[w].name@ == name);
                }
            }
            if has_op(dp, dp.len() as int, name) {
                let w = choose|j: int| 0 <= j < prefix.len() && prefix[j].name@ == name;
                assert(s[w].name@ == name);
            }
        } else {
            assert(d == dp.push(s.last()));
            if has_op(s, s.len() as int, name) {
                let w = choose|j: int| 0 <= j < s.len() && s[j].name@ == name;
                if w < s.len() - 1 {
                    assert(prefix[w].name@ == name);
                    let v = choose|j: int| 0 <= j < dp.len() && dp[j].name@ == name;
                    assert(d[v].name@ == name);
                } else {
                    assert(d[d.len() - 1].name@ == name);
                }
            }
            if has_op(d, d.len() as int, name) {
                let w = choose|j: int| 0 <= j < d.len() && d[j].name@ == name;
                if w < dp.len() {
                    let v = choose|j: int| 0 <= j < prefix.len() && prefix[j].name@ == name;
                    assert(s[v].name@ == name);
                } else {
                    assert(s[s.len() - 1].name@ == name);
                }
            }
        }
    }
}

/// The merged operation set carries no two operations with the same name.
pub proof fn lemma_dedup_distinct(s: Seq<Operation>)
    ensures
        forall|p: int, q: int|
            0 <= p < q < dedup_ops(s).len() ==> dedup_ops(s)[p].name@ != dedup_ops(s)[q].name@,
    decreases s.len(),
{
    if s.len() == 0 {
    } else {
        let prefix = s.drop_last();
        lemma_dedup_distinct(prefix);
        let d = dedup_ops(s);
        let dp = dedup_ops(prefix);
        if has_op(s, s.len() - 1, s.last().name@) {
            assert(d == dp);
        } else {
            assert(d == dp.push(s.last()));
            assert forall|p: int| 0 <= p < dp.len() implies dp[p].name@ != s.last().name@ by {
                if dp[p].name@ == s.last().name@ {
                    lemma_dedup_same_names(prefix, s.last().name@);
                    let w = choose|j: int|
                        0 <= j < prefix.len() && prefix[j].name@ == s.last().name@;
                    assert(s[w].name@ == s.last().name@);
                }
            }
        }
    }
}

/// A reference to one operation: the declaring interface's index in the
/// module's entity list, and the operation's index within that interface.
#[derive(Clone, Copy, PartialEq, Eq, Structural)]
pub struct OpRef {
    pub entity: usize,
    pub op: usize,
}

pub open spec fn valid_op_ref(entities: Seq<Entity>, r: OpRef) -> bool {
    &&& (r.entity as int) < entities.len()
    &&& entities[r.entity as int] is Interface
    &&& (r.op as int) < ops_of(entities, r.entity as int).len()
}

pub open spec fn op_at(entities: Seq<Entity>, r: OpRef) -> Operation {
    ops_of(entities, r.entity as int)[r.op as int]
}

/// The references name, in order, exactly the given operations.
pub open spec fn op_refs_match(entities: Seq<Entity>, refs: Seq<OpRef>, ops: Seq<Operation>) -> bool {
    &&& refs.len() == ops.len()
    &&& forall|j: int|
        0 <= j < refs.len() ==> valid_op_ref(entities, #[trigger] refs[j]) && op_at(
            entities,
            refs[j],
        ) == ops[j]
}

/// Borrows the operation a reference points at.
pub fn op_ref<'a>(entities: &'a Vec<Entity>, r: OpRef) -> (op: &'a Operation)
    requires
        valid_op_ref(entities@, r),
    ensures
        *op == op_at(entities@, r),
{
    match &entities[r.entity] {
        Entity::Interface(f) => &f.ops[r.op],
        _ => vstd::pervasive::unreached(),
    }
}

/// Collects references to all operations reachable from interface `i`,
/// inherited first, duplicates included.
pub fn raw_op_refs(entities: &Vec<Entity>, i: usize) -> (r: Vec<OpRef>)
    requires
        wf_entities(entities@),
        i < entities@.len(),
    ensures
        op_refs_match(entities@, r@, raw_ops(entities@, i as int)),
    decreases i,
{
    let mut out: Vec<OpRef> = Vec::new();
    match &entities[i] {
        Entity::Interface(f) => {
            let mut k: usize = 0;
            while k < f.bases.len()
                invariant
                    wf_entities(entities@),
                    i < entities@.len(),
                    entities@[i as int] is Interface,
                    f == entities@[i as int]->Interface_0,
                    k <= f.bases@.len(),
                    op_refs_match(
                        entities@,
                        out@,
                        bases_raw_ops(entities@, f.bases@.take(k as int), i as int),
                    ),
                decreases f.bases@.len() - k,
            {
                let b = f.bases[k];
                proof {
                    assert(crate::ast::wf_entity(entities@, i as int));
                    assert(f.bases@[k as int] < i);
                }
                let ghost prev = out@;
                let ghost prev_ops = bases_raw_ops(entities@, f.bases@.take(k as int), i as int);
                let mut sub = raw_op_refs(entities, b);
                let ghost sub_refs = sub@;
                out.append(&mut sub);
                proof {
                    assert(f.bases@.take(k + 1).drop_last() =~= f.bases@.take(k as int));
                    assert(f.bases@.take(k + 1).last() == f.bases@[k as int]);
                    let next_ops = bases_raw_ops(entities@, f.bases@.take(k + 1), i as int);
                    assert(next_ops == prev_ops + raw_ops(entities@, b as int));
                    assert forall|j: int| 0 <= j < out@.len() implies valid_op_ref(
                        entities@,
                        #[trigger] out@[j],
                    ) && op_at(entities@, out@[j]) == next_ops[j] by {
                        if j < prev.len() {
                            assert(out@[j] == prev[j]);
                        } else {
                            assert(out@[j] == sub_refs[j - prev.len()]);
                        }
                    }
                }
                k = k + 1;
            }
            proof {
                assert(f.bases@.take(f.bases@.len() as int) =~= f.bases@);
            }
            let mut m: usize = 0;
            while m < f.ops.len()
                invariant
                    i < entities@.len(),
                    entities@[i as int] is Interface,
                    f == entities@[i as int]->Interface_0,
                    m <= f.ops@.len(),
                    op_refs_match(
                        entities@,
                        out@,
                        bases_raw_ops(entities@, f.bases@, i as int) + f.ops@.take(m as int),
                    ),
                decreases f.ops@.len() - m,
            {
                let ghost prev = out@;
                out.push(OpRef { entity: i, op: m });
                proof {
                    let next_ops = bases_raw_ops(entities@, f.bases@, i as int) + f.ops@.take(
                        m + 1,
                    );
                    assert forall|j: int| 0 <= j < out@.len() implies valid_op_ref(
                        entities@,
                        #[trigger] out@[j],
                    ) && op_at(entities@, out@[j]) == next_ops[j] by {
                        if j < prev.len() {
                            assert(out@[j] == prev[j]);
                        }
                    }
                }
                m = m + 1;
            }
            proof {
                assert(f.ops@.take(f.ops@.len() as int) =~= f.ops@);
            }
        },
        _ => {
            proof {
                assert(raw_ops(entities@, i as int) =~= Seq::<Operation>::empty());
            }
        },
    }
    out
}

/// Whether one of the referenced operations is named `name`.
fn refs_contain_name(entities: &Vec<Entity>, refs: &Vec<OpRef>, ghost_ops: Ghost<Seq<Operation>>, name: &String) -> (r:
    bool)
    requires
        op_refs_match(entities@, refs@, ghost_ops@),
    ensures
        r == has_op(ghost_ops@, ghost_ops@.len() as int, name@),
{
    let mut i: usize = 0;
    while i < refs.len()
        invariant
            op_refs_match(entities@, refs@, ghost_ops@),
            i <= refs@.len(),
            forall|j: int| 0 <= j < i ==> ghost_ops@[j].name@ != name@,
        decreases refs@.len() - i,
    {
        let op = op_ref(entities, refs[i]);
        if op.name == *name {
            return true;
        }
        i = i + 1;
    }
    false
}

/// References to the merged operation set of interface `i`: the full
/// de-duplicated union of its own and inherited operations, in
/// first-occurrence order.
pub fn merged_op_refs(entities: &Vec<Entity>, i: usize) -> (r: Vec<OpRef>)
    requires
        wf_entities(entities@),
        i < entities@.len(),
    ensures
        op_refs_match(entities@, r@, merged_ops(entities@, i as int)),
{
    let raw = raw_op_refs(entities, i);
    let ghost raw_seq = raw_ops(entities@, i as int);
    let mut out: Vec<OpRef> = Vec::new();
    let mut k: usize = 0;
    while k < raw.len()
        invariant
            wf_entities(entities@),
            i < entities@.len(),
            raw_seq == raw_ops(entities@, i as int),
            op_refs_match(entities@, raw@, raw_seq),
            k <= raw@.len(),
            op_refs_match(entities@, out@, dedup_ops(raw_seq.take(k as int))),
        decreases raw@.len() - k,
    {
        proof {
            assert(raw_seq.take(k + 1).drop_last() =~= raw_seq.take(k as int));
            assert(raw_seq.take(k + 1).last() == raw_seq[k as int]);
            lemma_dedup_same_names(raw_seq.take(k as int), raw_seq[k as int].name@);
        }
        let ghost prev = out@;
        let ghost prev_ops = dedup_ops(raw_seq.take(k as int));
        let op = op_ref(entities, raw[k]);
        let name = op.name.clone();
        if !refs_contain_name(entities, &out, Ghost(prev_ops), &name) {
            out.push(raw[k]);
            proof {
                let next_ops = dedup_ops(raw_seq.take(k + 1));
                assert(next_ops == prev_ops.push(raw_seq[k as int]));
                assert forall|j: int| 0 <= j < out@.len() implies valid_op_ref(
                    entities@,
                    #[trigger] out@[j],
                ) && op_at(entities@, out@[j]) == next_ops[j] by {
                    if j < prev.len() {
                        assert(out@[j] == prev[j]);
                    }
                }
            }
        }
        k = k + 1;
    }
    proof {
        assert(raw_seq.take(raw_seq.len() as int) =~= raw_seq);
    }
    out
}

/// The routing rule of a generated dispatcher: a request naming an
/// operation in the merged set is routed to that operation's entry; any
/// other name is rejected with an `UnknownOperation` fault surfaced to the
/// caller, never a local crash.
pub fn dispatch_lookup(entities: &Vec<Entity>, i: usize, operation: &String) -> (r: Result<
    usize,
    DispatchFault,
>)
    requires
        wf_entities(entities@),
        i < entities@.len(),
    ensures
        match r {
            Ok(k) => k < merged_ops(entities@, i as int).len() && merged_ops(
                entities@,
                i as int,
            )[k as int].name@ == operation@,
            Err(f) => f == DispatchFault::UnknownOperation && forall|j: int|
                0 <= j < merged_ops(entities@, i as int).len() ==> merged_ops(
                    entities@,
                    i as int,
                )[j].name@ != operation@,
        },
{
    let merged = merged_op_refs(entities, i);
    let ghost merged_seq = merged_ops(entities@, i as int);
    let mut k: usize = 0;
    while k < merged.len()
        invariant
            i < entities@.len(),
            merged_seq == merged_ops(entities@, i as int),
            op_refs_match(entities@, merged@, merged_seq),
            k <= merged@.len(),
            forall|j: int| 0 <= j < k ==> merged_seq[j].name@ != operation@,
        decreases merged@.len() - k,
    {
        let op = op_ref(entities, merged[k]);
        proof {
            assert(op_at(entities@, merged@[k as int]) == merged_seq[k as int]);
        }
        if op.name == *operation {
            return Ok(k);
        }
        k = k + 1;
    }
    Err(DispatchFault::UnknownOperation)
}

} // verus!
