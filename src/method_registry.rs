//! Method signatures keyed by receiver type and method name.
use vstd::prelude::*;
use crate::types::{Type, TypeModel, type_eq};

verus! {

broadcast use vstd::std_specs::vec::group_vec_axioms, vstd::string::group_string_axioms;

/// What is known of a method.
pub struct MethodInfo {
    pub return_type: Type,
}

/// A registered method: receiver type, name, signature.
pub struct MethodEntry {
    pub recv: Type,
    pub name: String,
    pub info: MethodInfo,
}

/// The key of a registry entry.
pub open spec fn entry_key(e: MethodEntry) -> (TypeModel, Seq<char>) {
    (e.recv@, e.name@)
}

/// Maps (receiver type, method name) to a method signature; at most one
/// entry per key.
pub struct MethodRegistry {
    pub methods: Vec<MethodEntry>,
}

impl View for MethodRegistry {
    /// Each key to the return type registered for it.
    type V = Map<(TypeModel, Seq<char>), TypeModel>;

    open spec fn view(&self) -> Map<(TypeModel, Seq<char>), TypeModel> {
        Map::new(
            |k: (TypeModel, Seq<char>)| exists|i: int| 0 <= i < self.methods@.len() && entry_key(self.methods@[i]) == k,
            |k: (TypeModel, Seq<char>)|
                self.methods@[choose|i: int| 0 <= i < self.methods@.len() && entry_key(self.methods@[i]) == k].info.return_type@,
        )
    }
}

impl MethodRegistry {
    pub open spec fn wf(&self) -> bool {
        forall|i: int, j: int|
            0 <= i < j < self.methods@.len() ==> entry_key(#[trigger] self.methods@[i]) != entry_key(
                #[trigger] self.methods@[j],
            )
    }

    proof fn lemma_view_at(&self, i: int)
        requires
            self.wf(),
            0 <= i < self.methods@.len(),
        ensures
            self@.contains_key(entry_key(self.methods@[i])),
            self@[entry_key(self.methods@[i])] == self.methods@[i].info.return_type@,
    {
        let k = entry_key(self.methods@[i]);
        assert(self@.dom().contains(k));
        let j = choose|j: int| 0 <= j < self.methods@.len() && entry_key(self.methods@[j]) == k;
        if j != i {
            if j < i {
                assert(entry_key(self.methods@[j]) != entry_key(self.methods@[i]));
            } else {
                assert(entry_key(self.methods@[i]) != entry_key(self.methods@[j]));
            }
        }
    }

    pub fn new() -> (r: MethodRegistry)
        ensures
            r.wf(),
            r@ == Map::<(TypeModel, Seq<char>), TypeModel>::empty(),
    {
        let r = MethodRegistry { methods: Vec::new() };
        assert(r@ =~= Map::<(TypeModel, Seq<char>), TypeModel>::empty());
        r
    }

    /// The position of the entry for a key.
    fn find(&self, recv_ty: &Type, method_name: &str) -> (r: Option<usize>)
        ensures
            match r {
                Some(i) => i < self.methods@.len() && entry_key(self.methods@[i as int]) == (recv_ty@, method_name@),
                None => forall|i: int|
                    0 <= i < self.methods@.len() ==> entry_key(#[trigger] self.methods@[i]) != (recv_ty@, method_name@),
            },
    {
        let name = method_name.to_string();
        let mut i: usize = 0;
        while i < self.methods.len()
            invariant
                0 <= i <= self.methods@.len(),
                name@ == method_name@,
                forall|j: int| 0 <= j < i ==> entry_key(#[trigger] self.methods@[j]) != (recv_ty@, method_name@),
            decreases self.methods.len() - i,
        {
            if type_eq(&self.methods[i].recv, recv_ty) && self.methods[i].name == name {
                return Some(i);
            }
            i = i + 1;
        }
        None
    }

    /// Registers a method; a later registration of the same key replaces the earlier.
    pub fn register(&mut self, recv_ty: Type, method_name: &str, ret_ty: Type)
        requires
            old(self).wf(),
        ensures
            final(self).wf(),
            final(self)@ == old(self)@.insert((recv_ty@, method_name@), ret_ty@),
    {
        let ghost k = (recv_ty@, method_name@);
        let ghost ret = ret_ty@;
        let entry = MethodEntry { recv: recv_ty, name: method_name.to_string(), info: MethodInfo { return_type: ret_ty } };
        match self.find(&entry.recv, method_name) {
            Some(i) => {
                let ghost before = *self;
                self.methods.set(i, entry);
                proof {
                    assert(self@ =~= before@.insert(k, ret)) by {
                        assert forall|q: (TypeModel, Seq<char>)| #[trigger] self@.contains_key(q) <==> before@.insert(k, ret).contains_key(q) by {
                            if self@.contains_key(q) {
                                let j = choose|j: int| 0 <= j < self.methods@.len() && entry_key(self.methods@[j]) == q;
                                if j != i {
                                    assert(entry_key(before.methods@[j]) == q);
                                }
                            }
                            if before@.contains_key(q) {
                                let j = choose|j: int| 0 <= j < before.methods@.len() && entry_key(before.methods@[j]) == q;
                                if j != i {
                                    assert(entry_key(self.methods@[j]) == q);
                                } else {
                                    assert(entry_key(self.methods@[i as int]) == q);
                                }
                            }
                            if q == k {
                                assert(entry_key(self.methods@[i as int]) == q);
                            }
                        }
                        assert forall|q: (TypeModel, Seq<char>)| #[trigger] self@.contains_key(q) implies self@[q] == before@.insert(k, ret)[q] by {
                            let j = choose|j: int| 0 <= j < self.methods@.len() && entry_key(self.methods@[j]) == q;
                            self.lemma_view_at(j);
                            if j != i {
                                before.lemma_view_at(j);
                            }
                        }
                    }
                }
            },
            None => {
                let ghost before = *self;
                self.methods.push(entry);
                proof {
                    let n = before.methods@.len() as int;
                    assert forall|a: int, b: int| 0 <= a < b < self.methods@.len() implies entry_key(
                        #[trigger] self.methods@[a],
                    ) != entry_key(#[trigger] self.methods@[b]) by {
                        if b == n {
                            assert(entry_key(before.methods@[a]) != k);
                        } else {
                            assert(entry_key(before.methods@[a]) != entry_key(before.methods@[b]));
                        }
                    }
                    assert(self@ =~= before@.insert(k, ret)) by {
                        assert forall|q: (TypeModel, Seq<char>)| #[trigger] self@.contains_key(q) <==> before@.insert(k, ret).contains_key(q) by {
                            if self@.contains_key(q) {
                                let j = choose|j: int| 0 <= j < self.methods@.len() && entry_key(self.methods@[j]) == q;
                                if j != n {
                                    assert(entry_key(before.methods@[j]) == q);
                                }
                            }
                            if before@.contains_key(q) {
                                let j = choose|j: int| 0 <= j < before.methods@.len() && entry_key(before.methods@[j]) == q;
                                assert(entry_key(self.methods@[j]) == q);
                            }
                            if q == k {
                                assert(entry_key(self.methods@[n]) == q);
                            }
                        }
                        assert forall|q: (TypeModel, Seq<char>)| #[trigger] self@.contains_key(q) implies self@[q] == before@.insert(k, ret)[q] by {
                            let j = choose|j: int| 0 <= j < self.methods@.len() && entry_key(self.methods@[j]) == q;
                            self.lemma_view_at(j);
                            if j != n {
                                before.lemma_view_at(j);
                            }
                        }
                    }
                }
            },
        }
    }

    /// Looks a method up by exact receiver type and name; `Bot` resolves nothing.
    pub fn resolve(&self, recv_ty: &Type, method_name: &str) -> (r: Option<&MethodInfo>)
        requires
            self.wf(),
        ensures
            match r {
                Some(info) => recv_ty@ != TypeModel::Bot && self@.contains_key((recv_ty@, method_name@))
                    && info.return_type@ == self@[(recv_ty@, method_name@)],
                None => recv_ty@ == TypeModel::Bot || !self@.contains_key((recv_ty@, method_name@)),
            },
    {
        if let Type::Bot = recv_ty {
            return None;
        }
        match self.find(recv_ty, method_name) {
            Some(i) => {
                proof {
                    self.lemma_view_at(i as int);
                }
                Some(&self.methods[i].info)
            },
            None => {
                proof {
                    if self@.contains_key((recv_ty@, method_name@)) {
                        let j = choose|j: int| 0 <= j < self.methods@.len() && entry_key(self.methods@[j]) == (recv_ty@, method_name@);
                        assert(entry_key(self.methods@[j]) != (recv_ty@, method_name@));
                    }
                }
                None
            },
        }
    }
}

} // verus!
