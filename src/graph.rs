//! Nodes of the dataflow graph: mutable vertices and fixed-type sources.
use vstd::prelude::*;
use crate::types::{Type, TypeModel, copy_type, copy_types, models, show_model, type_eq};
use crate::display::{join_bar, lex_sorted, sort_strings};

verus! {

broadcast use vstd::std_specs::vec::group_vec_axioms;

/// The handle of a vertex or source; never reused while the graph lives.
#[derive(Clone, Copy, Debug, PartialEq, Eq, Hash, Structural)]
pub struct VertexId(pub usize);

/// The handle of a reactive box.
#[derive(Clone, Copy, Debug, PartialEq, Eq, Hash, Structural)]
pub struct BoxId(pub usize);

/// One type held by a vertex, with the upstream nodes that contributed it.
pub struct TypeEntry {
    pub ty: Type,
    pub origins: Vec<VertexId>,
}

/// A mutable node whose type set only grows.
pub struct Vertex {
    pub types: Vec<TypeEntry>,
    pub next: Vec<VertexId>,
    pub boxes: Vec<BoxId>,
}

/// An immutable node bearing a single fixed type.
pub struct Source {
    pub ty: Type,
}

/// The types of `incoming` that `existing` lacks, in order of first appearance.
pub open spec fn added_types(existing: Seq<TypeModel>, incoming: Seq<TypeModel>) -> Seq<TypeModel>
    decreases incoming.len(),
{
    if incoming.len() == 0 {
        Seq::empty()
    } else {
        let prev = added_types(existing, incoming.drop_last());
        if (existing + prev).contains(incoming.last()) {
            prev
        } else {
            prev.push(incoming.last())
        }
    }
}

/// `r` displays the type set `ts`: `untyped` when it is empty, the one
/// type's display, or the displays in lexicographic order as `(T1 | T2 | ...)`.
pub open spec fn shows_type_set(ts: Seq<TypeModel>, r: Seq<char>) -> bool {
    if ts.len() == 0 {
        r == "untyped"@
    } else if ts.len() == 1 {
        r == show_model(ts[0])
    } else {
        exists|p: Seq<Seq<char>>|
            p.to_multiset() == ts.map_values(|t: TypeModel| show_model(t)).to_multiset() && lex_sorted(p) && r
                == "("@ + join_bar(p) + ")"@
    }
}

/// `v` holds type `t` with origin `o` recorded for it.
pub open spec fn records_origin(v: Vertex, t: TypeModel, o: VertexId) -> bool {
    exists|k: int|
        0 <= k < v.types@.len() && #[trigger] v.types@[k].ty@ == t && v.types@[k].origins@.contains(o)
}

impl Vertex {
    /// The types held, in insertion order.
    pub open spec fn type_seq(&self) -> Seq<TypeModel> {
        self.types@.map_values(|e: TypeEntry| e.ty@)
    }

    pub open spec fn wf(&self) -> bool {
        self.type_seq().no_duplicates()
    }

    pub fn new() -> (r: Vertex)
        ensures
            r.types@.len() == 0,
            r.next@.len() == 0,
            r.boxes@.len() == 0,
            r.wf(),
    {
        Vertex { types: Vec::new(), next: Vec::new(), boxes: Vec::new() }
    }

    /// Records a downstream vertex.
    pub fn add_next(&mut self, id: VertexId)
        ensures
            final(self).next@ == old(self).next@.push(id),
            final(self).types == old(self).types,
            final(self).boxes == old(self).boxes,
    {
        self.next.push(id);
    }

    /// Subscribes a box to this vertex.
    pub fn add_box(&mut self, id: BoxId)
        ensures
            final(self).boxes@ == old(self).boxes@.push(id),
            final(self).types == old(self).types,
            final(self).next == old(self).next,
    {
        self.boxes.push(id);
    }

    /// The position of a type in the type map.
    pub fn find_type(&self, t: &Type) -> (r: Option<usize>)
        ensures
            match r {
                Some(i) => i < self.types@.len() && self.type_seq()[i as int] == t@,
                None => !self.type_seq().contains(t@),
            },
    {
        let mut i: usize = 0;
        while i < self.types.len()
            invariant
                0 <= i <= self.types@.len(),
                forall|j: int| 0 <= j < i ==> self.type_seq()[j] != t@,
            decreases self.types.len() - i,
        {
            if type_eq(&self.types[i].ty, t) {
                return Some(i);
            }
            i = i + 1;
        }
        None
    }

    /// The display of the type set.
    pub fn show(&self) -> (r: String)
        ensures
            shows_type_set(self.type_seq(), r@),
    {
        let n = self.types.len();
        if n == 0 {
            return "untyped".to_string();
        }
        if n == 1 {
            return self.types[0].ty.show();
        }
        let mut parts: Vec<String> = Vec::new();
        let mut i: usize = 0;
        while i < n
            invariant
                n == self.types@.len(),
                0 <= i <= n,
                parts@.map_values(|s: String| s@) =~= self.type_seq().subrange(0, i as int).map_values(
                    |t: TypeModel| show_model(t),
                ),
            decreases n - i,
        {
            let p = self.types[i].ty.show();
            let ghost prev = parts@;
            parts.push(p);
            proof {
                assert(p@ == show_model(self.type_seq()[i as int]));
                assert(parts@ == prev.push(p));
                assert(parts@.map_values(|s: String| s@) =~= prev.map_values(|s: String| s@).push(p@));
                assert(self.type_seq().subrange(0, i + 1).map_values(|t: TypeModel| show_model(t))
                    =~= self.type_seq().subrange(0, i as int).map_values(|t: TypeModel| show_model(t)).push(
                    show_model(self.type_seq()[i as int]),
                ));
            }
            i = i + 1;
        }
        proof {
            assert(self.type_seq().subrange(0, n as int) =~= self.type_seq());
        }
        let sorted = sort_strings(parts);
        let ghost ps = sorted@.map_values(|s: String| s@);
        let mut r = "(".to_string();
        let mut k: usize = 0;
        while k < sorted.len()
            invariant
                0 <= k <= sorted@.len(),
                ps == sorted@.map_values(|s: String| s@),
                r@ == "("@ + join_bar(ps.subrange(0, k as int)),
            decreases sorted.len() - k,
        {
            proof {
                assert(ps.subrange(0, k + 1).drop_last() =~= ps.subrange(0, k as int));
            }
            if k > 0 {
                r.append(" | ");
            } else {
                proof {
                    assert("("@ + join_bar(ps.subrange(0, 0)) =~= "("@);
                }
            }
            r.append(sorted[k].as_str());
            proof {
                if k > 0 {
                    assert(r@ =~= "("@ + join_bar(ps.subrange(0, k + 1)));
                } else {
                    assert(r@ =~= "("@ + join_bar(ps.subrange(0, k + 1)));
                }
            }
            k = k + 1;
        }
        r.append(")");
        proof {
            assert(ps.subrange(0, k as int) =~= ps);
        }
        r
    }

    /// Adds `types` from `origin`; returns, for each downstream vertex, the
    /// types that were new here (nothing when none was new).
    pub fn on_type_added(&mut self, origin: VertexId, types: Vec<Type>) -> (r: Vec<(VertexId, Vec<Type>)>)
        requires
            old(self).wf(),
        ensures
            final(self).wf(),
            final(self).type_seq() == old(self).type_seq() + added_types(
                old(self).type_seq(),
                models(types@),
            ),
            final(self).next == old(self).next,
            final(self).boxes == old(self).boxes,
            added_types(old(self).type_seq(), models(types@)).len() == 0 ==> r@.len() == 0,
            added_types(old(self).type_seq(), models(types@)).len() > 0 ==> {
                &&& r@.len() == old(self).next@.len()
                &&& forall|k: int|
                    0 <= k < r@.len() ==> (#[trigger] r@[k]).0 == old(self).next@[k] && models(r@[k].1@)
                        == added_types(old(self).type_seq(), models(types@))
            },
            forall|j: int| 0 <= j < types@.len() ==> records_origin(*final(self), #[trigger] types@[j]@, origin),
            forall|t: TypeModel, o: VertexId| #[trigger] records_origin(*old(self), t, o) ==> records_origin(*final(self), t, o),
    {
        let ghost old_seq = self.type_seq();
        let mut delta: Vec<Type> = Vec::new();
        let mut i: usize = 0;
        while i < types.len()
            invariant
                0 <= i <= types@.len(),
                self.wf(),
                models(delta@) == added_types(old_seq, models(types@.subrange(0, i as int))),
                self.type_seq() == old_seq + models(delta@),
                self.next == old(self).next,
                self.boxes == old(self).boxes,
                forall|j: int| 0 <= j < i ==> records_origin(*self, #[trigger] types@[j]@, origin),
                forall|t: TypeModel, o: VertexId| #[trigger] records_origin(*old(self), t, o) ==> records_origin(*self, t, o),
            decreases types.len() - i,
        {
            proof {
                assert(models(types@.subrange(0, i + 1)).drop_last() =~= models(types@.subrange(0, i as int)));
                assert(models(types@.subrange(0, i + 1)).last() == types@[i as int]@);
            }
            match self.find_type(&types[i]) {
                Some(k) => {
                    let ghost before = *self;
                    let mut seen = false;
                    let mut m: usize = 0;
                    while m < self.types[k].origins.len()
                        invariant
                            k < self.types@.len(),
                            0 <= m <= self.types@[k as int].origins@.len(),
                            seen ==> self.types@[k as int].origins@.contains(origin),
                            *self == before,
                        decreases self.types@[k as int].origins@.len() - m,
                    {
                        if self.types[k].origins[m] == origin {
                            seen = true;
                        }
                        m = m + 1;
                    }
                    if !seen {
                        self.types[k].origins.push(origin);
                        proof {
                            assert(self.types@[k as int].origins@ == before.types@[k as int].origins@.push(origin));
                            assert(self.types@[k as int].origins@.last() == origin);
                        }
                    }
                    proof {
                        assert forall|t: TypeModel, o: VertexId| #[trigger] records_origin(*old(self), t, o) implies records_origin(*self, t, o) by {
                            assert(records_origin(before, t, o));
                            let w = choose|w: int|
                                0 <= w < before.types@.len() && #[trigger] before.types@[w].ty@ == t && before.types@[w].origins@.contains(o);
                            assert(self.types@[w].ty@ == t);
                            if w != k {
                                assert(self.types@[w] == before.types@[w]);
                            } else {
                                let q = choose|q: int| 0 <= q < before.types@[w].origins@.len() && before.types@[w].origins@[q] == o;
                                assert(self.types@[w].origins@[q] == o);
                            }
                        }
                        assert(self.types@[k as int].origins@.contains(origin));

                        assert(self.type_seq() =~= before.type_seq());
                        assert forall|j: int| 0 <= j <= i implies records_origin(*self, #[trigger] types@[j]@, origin) by {
                            if j < i {
                                let w = choose|w: int|
                                    0 <= w < before.types@.len() && #[trigger] before.types@[w].ty@ == types@[j]@
                                        && before.types@[w].origins@.contains(origin);
                                assert(self.types@[w].ty@ == types@[j]@);
                                if w != k {
                                    assert(self.types@[w] == before.types@[w]);
                                }
                                assert(self.types@[w].origins@.contains(origin));
                                assert(records_origin(*self, types@[j]@, origin));
                            } else {
                                assert(self.type_seq()[k as int] == self.types@[k as int].ty@);
                                assert(self.types@[k as int].ty@ == types@[j]@);
                                assert(records_origin(*self, types@[j]@, origin));
                            }
                        }
                    }
                },
                None => {
                    let ghost before = *self;
                    let mut origins: Vec<VertexId> = Vec::new();
                    origins.push(origin);
                    let entry = TypeEntry { ty: copy_type(&types[i]), origins };
                    self.types.push(entry);
                    delta.push(copy_type(&types[i]));
                    proof {
                        assert forall|t: TypeModel, o: VertexId| #[trigger] records_origin(*old(self), t, o) implies records_origin(*self, t, o) by {
                            assert(records_origin(before, t, o));
                            let w = choose|w: int|
                                0 <= w < before.types@.len() && #[trigger] before.types@[w].ty@ == t && before.types@[w].origins@.contains(o);
                            assert(self.types@[w] == before.types@[w]);
                        }
                        assert(self.type_seq() =~= before.type_seq().push(types@[i as int]@));
                        assert(models(delta@) =~= added_types(old_seq, models(types@.subrange(0, i as int))).push(types@[i as int]@));
                        assert forall|j: int| 0 <= j <= i implies records_origin(*self, #[trigger] types@[j]@, origin) by {
                            if j < i {
                                let w = choose|w: int|
                                    0 <= w < before.types@.len() && #[trigger] before.types@[w].ty@ == types@[j]@
                                        && before.types@[w].origins@.contains(origin);
                                assert(self.types@[w] == before.types@[w]);
                                assert(self.types@[w].ty@ == types@[j]@);
                                assert(self.types@[w].origins@.contains(origin));
                            } else {
                                let last = self.types@.len() - 1;
                                assert(self.types@[last].origins@[0] == origin);
                                assert(self.types@[last].origins@.contains(origin));
                                assert(self.types@[last].ty@ == types@[j]@);
                            }
                        }
                    }
                },
            }
            i = i + 1;
        }
        proof {
            assert(types@.subrange(0, i as int) =~= types@);
        }
        let mut r: Vec<(VertexId, Vec<Type>)> = Vec::new();
        if delta.len() > 0 {
            let mut k: usize = 0;
            while k < self.next.len()
                invariant
                    0 <= k <= self.next@.len(),
                    r@.len() == k,
                    forall|q: int| 0 <= q < k ==> (#[trigger] r@[q]).0 == self.next@[q] && models(r@[q].1@) == models(delta@),
                decreases self.next.len() - k,
            {
                let d = copy_types(&delta);
                r.push((self.next[k], d));
                k = k + 1;
            }
        }
        r
    }
}

/// Where a piece of source text lies: lines are 1-based, columns 0-based,
/// offsets in bytes.
#[derive(Debug)]
pub struct SourceLocation {
    pub file: String,
    pub start_line: usize,
    pub start_column: usize,
    pub end_line: usize,
    pub end_column: usize,
    pub start_offset: usize,
    pub end_offset: usize,
}

impl Clone for SourceLocation {
    fn clone(&self) -> (r: Self)
        ensures
            r == *self,
    {
        SourceLocation {
            file: self.file.clone(),
            start_line: self.start_line,
            start_column: self.start_column,
            end_line: self.end_line,
            end_column: self.end_column,
            start_offset: self.start_offset,
            end_offset: self.end_offset,
        }
    }
}

/// The number of line breaks among the first `off` bytes.
pub open spec fn breaks_before(b: Seq<u8>, off: int) -> nat
    decreases off,
{
    if off <= 0 {
        0
    } else {
        breaks_before(b, off - 1) + if b[off - 1] == 10u8 {
            1nat
        } else {
            0nat
        }
    }
}

/// The number of bytes between the last line break before `off` and `off`.
pub open spec fn column_at(b: Seq<u8>, off: int) -> nat
    decreases off,
{
    if off <= 0 {
        0
    } else if b[off - 1] == 10u8 {
        0
    } else {
        column_at(b, off - 1) + 1
    }
}

/// The 1-based line and 0-based column of byte offset `off`.
pub fn line_column(source: &[u8], off: usize) -> (r: (usize, usize))
    requires
        off <= source@.len(),
        source@.len() < usize::MAX,
    ensures
        r.0 == breaks_before(source@, off as int) + 1,
        r.1 == column_at(source@, off as int),
{
    let mut line: usize = 1;
    let mut col: usize = 0;
    let mut i: usize = 0;
    while i < off
        invariant
            0 <= i <= off,
            off <= source@.len(),
            source@.len() < usize::MAX,
            line == breaks_before(source@, i as int) + 1,
            col == column_at(source@, i as int),
            line <= i + 1,
            col <= i,
        decreases off - i,
    {
        if source[i] == 10u8 {
            line = line + 1;
            col = 0;
        } else {
            col = col + 1;
        }
        i = i + 1;
    }
    (line, col)
}

impl SourceLocation {
    /// The location of bytes `start..end` of `source`, in file `file`.
    pub fn from_offsets(file: String, source: &[u8], start: usize, end: usize) -> (r: SourceLocation)
        requires
            start <= end,
            end <= source@.len(),
            source@.len() < usize::MAX,
        ensures
            r.file == file,
            r.start_offset == start,
            r.end_offset == end,
            r.start_line == breaks_before(source@, start as int) + 1,
            r.start_column == column_at(source@, start as int),
            r.end_line == breaks_before(source@, end as int) + 1,
            r.end_column == column_at(source@, end as int),
    {
        let (start_line, start_column) = line_column(source, start);
        let (end_line, end_column) = line_column(source, end);
        SourceLocation {
            file,
            start_line,
            start_column,
            end_line,
            end_column,
            start_offset: start,
            end_offset: end,
        }
    }
}

/// A copy of an optional location, equal to it.
pub fn copy_location(l: &Option<SourceLocation>) -> (r: Option<SourceLocation>)
    ensures
        r == *l,
{
    match l {
        Some(x) => Some(x.clone()),
        None => None,
    }
}

/// A deferred bag of edge additions, committed together.
pub struct ChangeSet {
    pub edges: Vec<(VertexId, VertexId)>,
}

impl ChangeSet {
    pub fn new() -> (r: ChangeSet)
        ensures
            r.edges@.len() == 0,
    {
        ChangeSet { edges: Vec::new() }
    }

    pub fn add_edge(&mut self, src: VertexId, dst: VertexId)
        ensures
            final(self).edges@ == old(self).edges@.push((src, dst)),
    {
        self.edges.push((src, dst));
    }
}

/// The reactive cell of one call site: fires when its receiver gains types.
pub struct MethodCallBox {
    pub id: BoxId,
    pub receiver: VertexId,
    pub method_name: String,
    pub return_vertex: VertexId,
    pub location: Option<SourceLocation>,
    /// Receiver types already processed.
    pub seen_types: Vec<Type>,
}

impl MethodCallBox {
    pub open spec fn seen(&self) -> Seq<TypeModel> {
        models(self.seen_types@)
    }

    pub fn new(
        id: BoxId,
        receiver: VertexId,
        method_name: String,
        return_vertex: VertexId,
        location: Option<SourceLocation>,
    ) -> (r: MethodCallBox)
        ensures
            r.id == id,
            r.receiver == receiver,
            r.method_name == method_name,
            r.return_vertex == return_vertex,
            r.location == location,
            r.seen_types@.len() == 0,
    {
        MethodCallBox { id, receiver, method_name, return_vertex, location, seen_types: Vec::new() }
    }
}

} // verus!
