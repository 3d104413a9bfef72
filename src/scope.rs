//! Nested lexical scopes: classes, methods, and class-wide instance variables.
use vstd::prelude::*;
use crate::graph::VertexId;
use crate::name_map::{NameMap, lookup};

verus! {

broadcast use vstd::std_specs::vec::group_vec_axioms;

pub enum Scope {
    Class { class_name: String, instance_vars: NameMap<VertexId> },
    Method { method_name: String },
}

/// The position of the innermost class scope.
pub open spec fn nearest_class(scopes: Seq<Scope>) -> Option<int>
    decreases scopes.len(),
{
    if scopes.len() == 0 {
        None
    } else if scopes.last() is Class {
        Some(scopes.len() - 1)
    } else {
        nearest_class(scopes.drop_last())
    }
}

pub proof fn lemma_nearest_class(scopes: Seq<Scope>)
    ensures
        match nearest_class(scopes) {
            Some(i) => 0 <= i < scopes.len() && scopes[i] is Class && forall|j: int|
                i < j < scopes.len() ==> !(#[trigger] scopes[j] is Class),
            None => forall|j: int| 0 <= j < scopes.len() ==> !(#[trigger] scopes[j] is Class),
        },
    decreases scopes.len(),
{
    if scopes.len() > 0 && !(scopes.last() is Class) {
        let init = scopes.drop_last();
        lemma_nearest_class(init);
        assert forall|j: int| 0 <= j < scopes.len() - 1 implies scopes[j] == #[trigger] init[j] by {}
        assert(!(scopes[scopes.len() - 1] is Class));
        match nearest_class(init) {
            Some(i) => {
                assert(init[i] is Class);
                assert forall|j: int| i < j < scopes.len() implies !(#[trigger] scopes[j] is Class) by {
                    if j < scopes.len() - 1 {
                        assert(!(init[j] is Class));
                    }
                }
            },
            None => {
                assert forall|j: int| 0 <= j < scopes.len() implies !(#[trigger] scopes[j] is Class) by {
                    if j < scopes.len() - 1 {
                        assert(!(init[j] is Class));
                    }
                }
            },
        }
    }
}

/// `s1` is `s0` but for the innermost class frame, which may have been
/// replaced by a class frame of the same name.
pub open spec fn frames_kept(s0: Seq<Scope>, s1: Seq<Scope>) -> bool {
    match nearest_class(s0) {
        Some(i) => s1 == s0.update(i, s1[i]) && s1[i] is Class && s1[i]->class_name == s0[i]->class_name,
        None => s1 == s0,
    }
}

pub proof fn lemma_nearest_same_kinds(a: Seq<Scope>, b: Seq<Scope>)
    requires
        a.len() == b.len(),
        forall|j: int| 0 <= j < a.len() ==> (#[trigger] a[j] is Class) == (b[j] is Class),
    ensures
        nearest_class(a) == nearest_class(b),
    decreases a.len(),
{
    if a.len() > 0 {
        assert(a.last() is Class == b.last() is Class);
        lemma_nearest_same_kinds(a.drop_last(), b.drop_last());
    }
}

pub proof fn lemma_frames_refl(s: Seq<Scope>)
    ensures
        frames_kept(s, s),
{
    lemma_nearest_class(s);
    if let Some(i) = nearest_class(s) {
        assert(s.update(i, s[i]) =~= s);
    }
}

pub proof fn lemma_frames_trans(a: Seq<Scope>, b: Seq<Scope>, c: Seq<Scope>)
    requires
        frames_kept(a, b),
        frames_kept(b, c),
    ensures
        frames_kept(a, c),
{
    lemma_nearest_class(a);
    if let Some(i) = nearest_class(a) {
        assert forall|j: int| 0 <= j < a.len() implies (#[trigger] a[j] is Class) == (b[j] is Class) by {
            if j != i {
                assert(b[j] == a[j]);
            }
        }
        lemma_nearest_same_kinds(a, b);
        assert(c =~= a.update(i, c[i]));
    }
}

/// The stack of scopes of one analysis.
pub struct ScopeManager {
    pub scopes: Vec<Scope>,
}

impl ScopeManager {
    pub open spec fn wf(&self) -> bool {
        forall|i: int|
            0 <= i < self.scopes@.len() && (#[trigger] self.scopes@[i]) is Class ==> self.scopes@[i]->instance_vars.wf()
    }

    /// The name of the innermost class.
    pub open spec fn class_name(&self) -> Option<Seq<char>> {
        match nearest_class(self.scopes@) {
            Some(i) => Some(self.scopes@[i]->class_name@),
            None => None,
        }
    }

    /// The instance variables of the innermost class.
    pub open spec fn ivars(&self) -> Option<Map<Seq<char>, VertexId>> {
        match nearest_class(self.scopes@) {
            Some(i) => Some(self.scopes@[i]->instance_vars@),
            None => None,
        }
    }

    pub fn new() -> (r: ScopeManager)
        ensures
            r.wf(),
            r.scopes@.len() == 0,
    {
        ScopeManager { scopes: Vec::new() }
    }

    pub fn enter_class(&mut self, name: String)
        requires
            old(self).wf(),
        ensures
            final(self).wf(),
            final(self).scopes@.len() == old(self).scopes@.len() + 1,
            final(self).scopes@.drop_last() == old(self).scopes@,
            final(self).class_name() == Some(name@),
            final(self).ivars() == Some(Map::<Seq<char>, VertexId>::empty()),
            final(self).scopes@.last() is Class,
    {
        let ghost before = self.scopes@;
        self.scopes.push(Scope::Class { class_name: name, instance_vars: NameMap::new() });
        proof {
            assert(self.scopes@.drop_last() =~= before);
        }
    }

    pub fn enter_method(&mut self, name: String)
        requires
            old(self).wf(),
        ensures
            final(self).wf(),
            final(self).scopes@.len() == old(self).scopes@.len() + 1,
            final(self).scopes@.drop_last() == old(self).scopes@,
            final(self).class_name() == old(self).class_name(),
            final(self).ivars() == old(self).ivars(),
            !(final(self).scopes@.last() is Class),
    {
        let ghost before = self.scopes@;
        self.scopes.push(Scope::Method { method_name: name });
        proof {
            assert(self.scopes@.drop_last() =~= before);
            lemma_nearest_class(before);
            match nearest_class(before) {
                Some(i) => {
                    assert(self.scopes@[i] == before[i]);
                },
                None => {},
            }
        }
    }

    /// Leaves the innermost scope; nothing happens at the outermost level.
    pub fn exit_scope(&mut self)
        requires
            old(self).wf(),
        ensures
            final(self).wf(),
            old(self).scopes@.len() > 0 ==> final(self).scopes@ == old(self).scopes@.drop_last(),
            old(self).scopes@.len() == 0 ==> final(self).scopes@.len() == 0,
    {
        let _ = self.scopes.pop();
    }

    pub fn current_class_name(&self) -> (r: Option<String>)
        ensures
            match r {
                Some(s) => self.class_name() == Some(s@),
                None => self.class_name() is None,
            },
    {
        let mut i: usize = self.scopes.len();
        proof {
            assert(self.scopes@.subrange(0, i as int) =~= self.scopes@);
        }
        while i > 0
            invariant
                0 <= i <= self.scopes@.len(),
                nearest_class(self.scopes@) == nearest_class(self.scopes@.subrange(0, i as int)),
            decreases i,
        {
            proof {
                assert(self.scopes@.subrange(0, i as int).drop_last() =~= self.scopes@.subrange(0, i - 1));
            }
            match &self.scopes[i - 1] {
                Scope::Class { class_name, .. } => {
                    return Some(class_name.clone());
                },
                Scope::Method { .. } => {},
            }
            i = i - 1;
        }
        None
    }

    /// The position of the innermost class scope.
    fn class_index(&self) -> (r: Option<usize>)
        ensures
            match r {
                Some(i) => nearest_class(self.scopes@) == Some(i as int),
                None => nearest_class(self.scopes@) is None,
            },
    {
        let mut i: usize = self.scopes.len();
        proof {
            assert(self.scopes@.subrange(0, i as int) =~= self.scopes@);
        }
        while i > 0
            invariant
                0 <= i <= self.scopes@.len(),
                nearest_class(self.scopes@) == nearest_class(self.scopes@.subrange(0, i as int)),
            decreases i,
        {
            proof {
                assert(self.scopes@.subrange(0, i as int).drop_last() =~= self.scopes@.subrange(0, i - 1));
            }
            match &self.scopes[i - 1] {
                Scope::Class { .. } => {
                    return Some(i - 1);
                },
                Scope::Method { .. } => {},
            }
            i = i - 1;
        }
        None
    }

    /// Binds an instance variable in the innermost class scope; outside any
    /// class nothing is bound.
    pub fn set_instance_var_in_class(&mut self, name: String, vtx: VertexId)
        requires
            old(self).wf(),
        ensures
            final(self).wf(),
            final(self).class_name() == old(self).class_name(),
            match old(self).ivars() {
                Some(m) => final(self).ivars() == Some(m.insert(name@, vtx)),
                None => final(self).ivars() is None,
            },
            final(self).scopes@.len() == old(self).scopes@.len(),
            frames_kept(old(self).scopes@, final(self).scopes@),
    {
        match self.class_index() {
            Some(i) => {
                let ghost before = self.scopes@;
                proof {
                    lemma_nearest_class(before);
                }
                match &mut self.scopes[i] {
                    Scope::Class { instance_vars, .. } => instance_vars.insert(name, vtx),
                    Scope::Method { .. } => {},
                }
                proof {
                    lemma_nearest_class(self.scopes@);
                    assert forall|j: int| 0 <= j < self.scopes@.len() && j != i implies #[trigger] self.scopes@[j] == before[j] by {}
                    assert(self.scopes@ =~= before.update(i as int, self.scopes@[i as int]));
                    assert(nearest_class(self.scopes@) == Some(i as int)) by {
                        let n = nearest_class(self.scopes@);
                        if n != Some(i as int) {
                            match n {
                                Some(k) => {
                                    if k > i {
                                        assert(self.scopes@[k] == before[k]);
                                    } else {
                                        assert(!(self.scopes@[i as int] is Class));
                                    }
                                },
                                None => {
                                    assert(!(self.scopes@[i as int] is Class));
                                },
                            }
                        }
                    }
                }
            },
            None => {
                proof {
                    lemma_frames_refl(self.scopes@);
                }
            },
        }
    }

    pub fn lookup_instance_var(&self, name: &str) -> (r: Option<VertexId>)
        requires
            self.wf(),
        ensures
            match self.ivars() {
                Some(m) => r == lookup(m, name@),
                None => r is None,
            },
    {
        match self.class_index() {
            Some(i) => {
                proof {
                    lemma_nearest_class(self.scopes@);
                }
                match &self.scopes[i] {
                    Scope::Class { instance_vars, .. } => match instance_vars.get(name) {
                        Some(v) => Some(*v),
                        None => None,
                    },
                    Scope::Method { .. } => None,
                }
            },
            None => None,
        }
    }
}

} // verus!
