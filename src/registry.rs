//! The directory of deployed procedures: names, each with its compiled module,
//! kept in ascending order of name.
use vstd::prelude::*;
use vstd::string::StringSliceAdditionalSpecFns;
use vstd::utf8::{encode_utf8, encode_utf8_decode_utf8};
use crate::order::{
    bytes_eq, bytes_lt, lemma_lex_asymmetric, lemma_lex_irreflexive, lemma_lex_le_transitive,
    lemma_lex_total, lemma_lex_transitive, lex_le, lex_lt,
};
use crate::store::BicycleError;

verus! {

/// A byte that a procedure name may hold: ASCII letters, digits, `_`, `-` and `.`.
pub open spec fn is_name_byte(b: u8) -> bool {
    (48 <= b <= 57) || (65 <= b <= 90) || (97 <= b <= 122) || b == 95 || b == 45 || b == 46
}

/// A procedure name that is safe as a file name: non-empty, of name bytes, not
/// beginning with `.`.
pub open spec fn valid_name(n: Seq<u8>) -> bool {
    &&& n.len() > 0
    &&& n[0] != 46
    &&& forall|i: int| 0 <= i < n.len() ==> is_name_byte(#[trigger] n[i])
}

/// Whether `name` is a valid procedure name.
pub fn is_valid_name(name: &str) -> (r: bool)
    ensures
        r == valid_name(name.spec_bytes()),
{
    let b = name.as_bytes();
    if b.len() == 0 || b[0] == 46 {
        return false;
    }
    let mut i: usize = 0;
    while i < b.len()
        invariant
            b@ == name.spec_bytes(),
            i <= b@.len(),
            forall|j: int| 0 <= j < i ==> is_name_byte(#[trigger] b@[j]),
        decreases b@.len() - i,
    {
        let c = b[i];
        if !((48 <= c && c <= 57) || (65 <= c && c <= 90) || (97 <= c && c <= 122) || c == 95 || c == 45
            || c == 46) {
            return false;
        }
        i = i + 1;
    }
    true
}

/// Refuses a name that is not a valid procedure name.
pub fn check_name(name: &str) -> (r: Result<(), BicycleError>)
    ensures
        r is Ok <==> valid_name(name.spec_bytes()),
        r matches Err(e) ==> e is InvalidArgument,
{
    if is_valid_name(name) {
        Ok(())
    } else {
        Err(BicycleError::InvalidArgument)
    }
}

/// Names in strictly ascending order of their UTF-8 bytes.
pub open spec fn sorted_names(ns: Seq<Seq<char>>) -> bool {
    forall|i: int, j: int| 0 <= i < j < ns.len() ==> #[trigger] lex_lt(encode_utf8(ns[i]), encode_utf8(ns[j]))
}

proof fn lemma_name_eq(a: Seq<char>, b: Seq<char>)
    ensures
        (encode_utf8(a) == encode_utf8(b)) == (a == b),
{
    encode_utf8_decode_utf8(a);
    encode_utf8_decode_utf8(b);
}

pub struct Registry<M> {
    names: Vec<String>,
    modules: Vec<M>,
    contents: Ghost<Map<Seq<char>, M>>,
}

impl<M> View for Registry<M> {
    type V = Map<Seq<char>, M>;

    /// Each deployed name with its module.
    closed spec fn view(&self) -> Map<Seq<char>, M> {
        self.contents@
    }
}

impl<M> Registry<M> {
    /// The deployed names in ascending order.
    pub closed spec fn names(&self) -> Seq<Seq<char>> {
        self.names@.map_values(|s: String| s@)
    }

    pub closed spec fn wf(&self) -> bool {
        &&& self.names@.len() == self.modules@.len()
        &&& sorted_names(self.names())
        &&& forall|i: int|
            0 <= i < self.names().len() ==> #[trigger] self@.contains_key(self.names()[i]) && self@[self.names()[i]]
                == self.modules@[i]
        &&& forall|k: Seq<char>| #[trigger]
            self@.contains_key(k) ==> exists|i: int| 0 <= i < self.names().len() && self.names()[i] == k
    }

    /// The names in ascending order are exactly the deployed ones.
    pub proof fn lemma_names(&self)
        requires
            self.wf(),
        ensures
            sorted_names(self.names()),
            forall|i: int| 0 <= i < self.names().len() ==> self@.contains_key(#[trigger] self.names()[i]),
            forall|k: Seq<char>| #[trigger]
                self@.contains_key(k) ==> exists|i: int| 0 <= i < self.names().len() && self.names()[i] == k,
    {
    }

    /// An empty registry.
    pub fn new() -> (r: Registry<M>)
        ensures
            r.wf(),
            r@ == Map::<Seq<char>, M>::empty(),
    {
        let r = Registry { names: Vec::new(), modules: Vec::new(), contents: Ghost(Map::empty()) };
        assert(r.names() =~= Seq::empty());
        r
    }

    /// The position of the first name at or after `name`.
    fn position(&self, name: &str) -> (i: usize)
        requires
            self.wf(),
        ensures
            i <= self.names().len(),
            forall|j: int| 0 <= j < i ==> lex_lt(encode_utf8(#[trigger] self.names()[j]), name.spec_bytes()),
            forall|j: int|
                i <= j < self.names().len() ==> lex_le(name.spec_bytes(), encode_utf8(#[trigger] self.names()[j])),
    {
        let ghost ns = self.names();
        let mut i: usize = 0;
        while i < self.names.len() && bytes_lt(self.names[i].as_str().as_bytes(), name.as_bytes())
            invariant
                ns == self.names(),
                self.names@.len() == ns.len(),
                i <= ns.len(),
                forall|j: int| 0 <= j < i ==> lex_lt(encode_utf8(#[trigger] ns[j]), name.spec_bytes()),
            decreases ns.len() - i,
        {
            i = i + 1;
        }
        proof {
            if i < ns.len() {
                lemma_lex_total(encode_utf8(ns[i as int]), name.spec_bytes());
                assert forall|j: int| i <= j < ns.len() implies lex_le(name.spec_bytes(), encode_utf8(#[trigger] ns[j])) by {
                    if j > i {
                        assert(lex_lt(encode_utf8(ns[i as int]), encode_utf8(ns[j])));
                        lemma_lex_le_transitive(name.spec_bytes(), encode_utf8(ns[i as int]), encode_utf8(ns[j]));
                    }
                }
            }
        }
        i
    }

    /// Whether the name at position `i` is `name`, and if so, that no other is.
    fn found_at(&self, name: &str, i: usize) -> (r: bool)
        requires
            self.wf(),
            i <= self.names().len(),
            forall|j: int| 0 <= j < i ==> lex_lt(encode_utf8(#[trigger] self.names()[j]), name.spec_bytes()),
            forall|j: int|
                i <= j < self.names().len() ==> lex_le(name.spec_bytes(), encode_utf8(#[trigger] self.names()[j])),
        ensures
            r == self@.contains_key(name@),
            r ==> i < self.names().len() && self.names()[i as int] == name@,
    {
        let ghost ns = self.names();
        let r = i < self.names.len() && bytes_eq(self.names[i].as_str().as_bytes(), name.as_bytes());
        proof {
            if r {
                lemma_name_eq(ns[i as int], name@);
                assert(self@.contains_key(ns[i as int]));
            } else if self@.contains_key(name@) {
                let j = choose|j: int| 0 <= j < ns.len() && ns[j] == name@;
                lemma_lex_irreflexive(name.spec_bytes());
                if j > i {
                    assert(lex_lt(encode_utf8(ns[i as int]), encode_utf8(ns[j])));
                    lemma_lex_asymmetric(encode_utf8(ns[i as int]), name.spec_bytes());
                    lemma_name_eq(ns[i as int], name@);
                } else if j == i {
                    lemma_name_eq(ns[i as int], name@);
                }
            }
        }
        r
    }

    /// The module deployed under `name`; an unknown name is `NotFound`.
    pub fn lookup(&self, name: &str) -> (r: Result<&M, BicycleError>)
        requires
            self.wf(),
        ensures
            r is Ok <==> self@.contains_key(name@),
            r matches Ok(m) ==> *m == self@[name@],
            r matches Err(e) ==> e is NotFound,
    {
        match self.get(name) {
            Some(m) => Ok(m),
            None => Err(BicycleError::NotFound),
        }
    }

    /// A registry holding `entries`, as read back from the procedure directory:
    /// each name with its module, a later entry over an earlier one of the same name.
    pub fn load(entries: Vec<(String, M)>) -> (r: Registry<M>)
        ensures
            r.wf(),
            r@ == loaded(entries@),
    {
        let mut r = Registry::new();
        let mut rest = entries;
        let ghost all = rest@;
        let ghost mut k: int = 0;
        while rest.len() > 0
            invariant
                r.wf(),
                0 <= k <= all.len(),
                rest@ == all.skip(k),
                r@ == loaded(all.take(k)),
            decreases rest@.len(),
        {
            let (name, module) = rest.remove(0);
            proof {
                assert(all.take(k + 1).drop_last() =~= all.take(k));
                assert(all.take(k + 1).last() == all[k]);
                assert(rest@ =~= all.skip(k + 1));
                k = k + 1;
            }
            r.insert(name, module);
        }
        assert(all.take(k) =~= all);
        r
    }

    /// Whether `name` is deployed.
    pub fn contains(&self, name: &str) -> (r: bool)
        requires
            self.wf(),
        ensures
            r == self@.contains_key(name@),
    {
        let i = self.position(name);
        self.found_at(name, i)
    }

    /// The module deployed under `name`.
    pub fn get(&self, name: &str) -> (r: Option<&M>)
        requires
            self.wf(),
        ensures
            r is Some <==> self@.contains_key(name@),
            r matches Some(m) ==> *m == self@[name@],
    {
        let i = self.position(name);
        if self.found_at(name, i) {
            Some(&self.modules[i])
        } else {
            None
        }
    }

    /// Deploys `module` under `name`, replacing what was there.
    pub fn insert(&mut self, name: String, module: M)
        requires
            old(self).wf(),
        ensures
            final(self).wf(),
            final(self)@ == old(self)@.insert(name@, module),
    {
        let ghost ns = self.names();
        let ghost m0 = self@;
        let ghost k = name@;
        let i = self.position(name.as_str());
        if self.found_at(name.as_str(), i) {
            self.names.set(i, name);
            self.modules.set(i, module);
            self.contents = Ghost(self.contents@.insert(k, module));
            proof {
                let nn = self.names();
                assert(nn =~= ns.update(i as int, k));
                assert forall|a: int| 0 <= a < nn.len() implies #[trigger] self@.contains_key(nn[a])
                    && self@[nn[a]] == self.modules@[a] by {
                    if a != i {
                        assert(m0.contains_key(ns[a]));
                        if a < i {
                            assert(lex_lt(encode_utf8(ns[a]), encode_utf8(ns[i as int])));
                        } else {
                            assert(lex_lt(encode_utf8(ns[i as int]), encode_utf8(ns[a])));
                        }
                        lemma_lex_irreflexive(encode_utf8(k));
                    }
                }
                assert forall|kk: Seq<char>| #[trigger] self@.contains_key(kk) implies exists|a: int|
                    0 <= a < nn.len() && nn[a] == kk by {
                    if kk == k {
                        assert(nn[i as int] == kk);
                    } else {
                        let a = choose|a: int| 0 <= a < ns.len() && ns[a] == kk;
                        assert(nn[a] == kk);
                    }
                }
            }
        } else {
            self.names.insert(i, name);
            self.modules.insert(i, module);
            self.contents = Ghost(self.contents@.insert(k, module));
            proof {
                let nn = self.names();
                let ek = encode_utf8(k);
                assert(nn =~= ns.insert(i as int, k));
                if i < ns.len() {
                    lemma_lex_total(ek, encode_utf8(ns[i as int]));
                    lemma_name_eq(ns[i as int], k);
                }
                assert forall|a: int, b: int| 0 <= a < b < nn.len() implies #[trigger] lex_lt(
                    encode_utf8(nn[a]),
                    encode_utf8(nn[b]),
                ) by {
                    if b == i {
                    } else if a == i {
                        if b - 1 > i {
                            assert(lex_lt(encode_utf8(ns[i as int]), encode_utf8(ns[b - 1])));
                            lemma_lex_transitive(ek, encode_utf8(ns[i as int]), encode_utf8(ns[b - 1]));
                        }
                    } else if a < i && b > i {
                        lemma_lex_le_transitive(encode_utf8(ns[a]), ek, encode_utf8(ns[b - 1]));
                        assert(lex_lt(encode_utf8(ns[a]), encode_utf8(ns[b - 1]))) by {
                            if encode_utf8(ns[a]) == encode_utf8(ns[b - 1]) {
                                lemma_lex_irreflexive(ek);
                                lemma_lex_asymmetric(encode_utf8(ns[a]), ek);
                            }
                        }
                    } else if a > i {
                        assert(lex_lt(encode_utf8(ns[a - 1]), encode_utf8(ns[b - 1])));
                    } else {
                        assert(lex_lt(encode_utf8(ns[a]), encode_utf8(ns[b])));
                    }
                }
                assert forall|a: int| 0 <= a < nn.len() implies #[trigger] self@.contains_key(nn[a])
                    && self@[nn[a]] == self.modules@[a] by {
                    if a < i {
                        assert(m0.contains_key(ns[a]));
                        lemma_lex_irreflexive(ek);
                    } else if a > i {
                        assert(m0.contains_key(ns[a - 1]));
                        if a - 1 > i {
                            assert(lex_lt(encode_utf8(ns[i as int]), encode_utf8(ns[a - 1])));
                            lemma_lex_le_transitive(ek, encode_utf8(ns[i as int]), encode_utf8(ns[a - 1]));
                            lemma_lex_asymmetric(encode_utf8(ns[i as int]), encode_utf8(ns[a - 1]));
                        }
                        lemma_name_eq(ns[a - 1], k);
                        lemma_lex_irreflexive(ek);
                    }
                }
                assert forall|kk: Seq<char>| #[trigger] self@.contains_key(kk) implies exists|a: int|
                    0 <= a < nn.len() && nn[a] == kk by {
                    if kk == k {
                        assert(nn[i as int] == kk);
                    } else {
                        let a = choose|a: int| 0 <= a < ns.len() && ns[a] == kk;
                        if a < i {
                            assert(nn[a] == kk);
                        } else {
                            assert(nn[a + 1] == kk);
                        }
                    }
                }
            }
        }
    }

    /// Removes `name` and hands back its module; an unknown name is `NotFound`
    /// and changes nothing.
    pub fn remove(&mut self, name: &str) -> (r: Result<M, BicycleError>)
        requires
            old(self).wf(),
        ensures
            final(self).wf(),
            r is Ok <==> old(self)@.contains_key(name@),
            r matches Ok(m) ==> m == old(self)@[name@] && final(self)@ == old(self)@.remove(name@),
            r matches Err(e) ==> e is NotFound && final(self)@ == old(self)@,
    {
        let ghost ns = self.names();
        let ghost m0 = self@;
        let ghost k = name@;
        let i = self.position(name);
        if !self.found_at(name, i) {
            return Err(BicycleError::NotFound);
        }
        self.names.remove(i);
        let module = self.modules.remove(i);
        self.contents = Ghost(self.contents@.remove(k));
        proof {
            let nn = self.names();
            assert(nn =~= ns.remove(i as int));
            assert forall|a: int, b: int| 0 <= a < b < nn.len() implies #[trigger] lex_lt(
                encode_utf8(nn[a]),
                encode_utf8(nn[b]),
            ) by {
                if a < i && b >= i {
                    assert(lex_lt(encode_utf8(ns[a]), encode_utf8(ns[b + 1])));
                } else if a >= i {
                    assert(lex_lt(encode_utf8(ns[a + 1]), encode_utf8(ns[b + 1])));
                } else {
                    assert(lex_lt(encode_utf8(ns[a]), encode_utf8(ns[b])));
                }
            }
            assert forall|a: int| 0 <= a < nn.len() implies #[trigger] self@.contains_key(nn[a])
                && self@[nn[a]] == self.modules@[a] by {
                if a < i {
                    assert(m0.contains_key(ns[a]));
                    assert(lex_lt(encode_utf8(ns[a]), encode_utf8(ns[i as int])));
                    lemma_lex_irreflexive(encode_utf8(k));
                } else {
                    assert(m0.contains_key(ns[a + 1]));
                    assert(lex_lt(encode_utf8(ns[i as int]), encode_utf8(ns[a + 1])));
                    lemma_lex_irreflexive(encode_utf8(k));
                }
            }
            assert forall|kk: Seq<char>| #[trigger] self@.contains_key(kk) implies exists|a: int|
                0 <= a < nn.len() && nn[a] == kk by {
                let a = choose|a: int| 0 <= a < ns.len() && ns[a] == kk;
                if a < i {
                    assert(nn[a] == kk);
                } else {
                    assert(a != i);
                    assert(nn[a - 1] == kk);
                }
            }
        }
        Ok(module)
    }

    /// The deployed names in ascending order.
    pub fn list(&self) -> (r: Vec<String>)
        requires
            self.wf(),
        ensures
            r@.map_values(|s: String| s@) == self.names(),
    {
        let mut out: Vec<String> = Vec::new();
        let mut i: usize = 0;
        while i < self.names.len()
            invariant
                i <= self.names@.len(),
                out@.map_values(|s: String| s@) == self.names().take(i as int),
            decreases self.names@.len() - i,
        {
            let ghost before = out@;
            let name = self.names[i].clone();
            assert(name@ == self.names()[i as int]);
            out.push(name);
            assert(before.map_values(|s: String| s@) =~= self.names().take(i as int));
            assert(out@.map_values(|s: String| s@) =~= before.map_values(|s: String| s@).push(name@));
            assert(out@.map_values(|s: String| s@) =~= self.names().take(i + 1));
            i = i + 1;
        }
        assert(self.names().take(i as int) =~= self.names());
        out
    }
}

/// The registry that inserting `entries` in order into an empty one gives.
pub open spec fn loaded<M>(entries: Seq<(String, M)>) -> Map<Seq<char>, M>
    decreases entries.len(),
{
    if entries.len() == 0 {
        Map::empty()
    } else {
        loaded(entries.drop_last()).insert(entries.last().0@, entries.last().1)
    }
}

/// Reading the procedure directory back holds exactly the names it lists; so a
/// registry whose names match its directory's files keeps them across a restart.
pub proof fn lemma_reload_keeps_names<M>(before: Map<Seq<char>, M>, listing: Seq<(String, M)>)
    requires
        forall|n: Seq<char>|
            before.contains_key(n) <==> exists|i: int| 0 <= i < listing.len() && (#[trigger] listing[i]).0@ == n,
    ensures
        loaded(listing).dom() == before.dom(),
{
    lemma_loaded_dom(listing);
    assert(loaded(listing).dom() =~= before.dom());
}

proof fn lemma_loaded_dom<M>(listing: Seq<(String, M)>)
    ensures
        forall|n: Seq<char>|
            loaded(listing).contains_key(n) <==> exists|i: int| 0 <= i < listing.len() && (#[trigger] listing[i]).0@ == n,
    decreases listing.len(),
{
    if listing.len() > 0 {
        let d = listing.drop_last();
        lemma_loaded_dom(d);
        assert forall|n: Seq<char>|
            loaded(listing).contains_key(n) <==> exists|i: int| 0 <= i < listing.len() && (#[trigger] listing[i]).0@ == n by {
            if loaded(listing).contains_key(n) && n != listing.last().0@ {
                assert(loaded(d).contains_key(n));
                let i = choose|i: int| 0 <= i < d.len() && (#[trigger] d[i]).0@ == n;
                assert(listing[i] == d[i]);
            }
            if exists|i: int| 0 <= i < listing.len() && (#[trigger] listing[i]).0@ == n {
                let i = choose|i: int| 0 <= i < listing.len() && (#[trigger] listing[i]).0@ == n;
                if i < d.len() {
                    assert(d[i] == listing[i]);
                    assert(loaded(d).contains_key(n));
                }
            }
        }
    }
}

} // verus!
