use vstd::prelude::*;
use vstd::laws_eq::obeys_concrete_eq;
use vstd::string::StringExecFns;
use crate::error::DatabaseError;
use crate::paths::{spec_stem, stem_of};

verus! {

/// An in-memory record store.  It keeps a label and an optional explicit
/// save location, a duplicate policy, and the records themselves, of which
/// no two ever compare equal.
///
/// The record type must supply hashing and equality; the contracts further
/// expect that its `==` agrees with structural equality
/// ([`obeys_concrete_eq`]), which holds of any type whose equality compares
/// the whole value.
#[derive(Clone, Debug, PartialEq, Eq)]
pub struct Database<T> {
    /// Friendly name for the store; also the fallback basis for the save
    /// file name.
    pub label: String,
    /// Where the store is saved.  When absent, the effective path is
    /// `<label>.tinydb`.
    pub save_path: Option<String>,
    /// When set, inserting a record equal to a stored one is an error;
    /// when clear, such an insertion succeeds and changes nothing.
    pub strict_dupes: bool,
    /// The stored records.  Their maintained invariant is [`Database::wf`].
    pub items: Vec<T>,
}

impl<T: Eq + std::hash::Hash> Database<T> {
    /// No two stored records are equal.
    pub open spec fn wf(self) -> bool {
        self.items@.no_duplicates()
    }

    /// The label, save location and duplicate policy, all at once: what
    /// every operation on the records leaves untouched.
    pub open spec fn same_config(self, other: Self) -> bool {
        &&& self.label == other.label
        &&& self.save_path == other.save_path
        &&& self.strict_dupes == other.strict_dupes
    }

    /// Builds an empty store with the given metadata.  Never fails.
    pub fn new(label: String, save_path: Option<String>, strict_dupes: bool) -> (db: Self)
        ensures
            db.label == label,
            db.save_path == save_path,
            db.strict_dupes == strict_dupes,
            db.items@ =~= Seq::<T>::empty(),
            db.wf(),
    {
        Database { label, save_path, strict_dupes, items: Vec::new() }
    }

    /// The index of the first stored record equal to `x`, if any.
    fn find(&self, x: &T) -> (r: Option<usize>)
        requires
            obeys_concrete_eq::<T>(),
        ensures
            match r {
                Some(i) => i < self.items@.len() && self.items@[i as int] == *x && (forall|j: int|
                    0 <= j < i ==> self.items@[j] != *x),
                None => !self.items@.contains(*x),
            },
    {
        proof {
            reveal(vstd::laws_eq::obeys_concrete_eq);
        }
        let n = self.items.len();
        let mut i: usize = 0;
        while i < n
            invariant
                obeys_concrete_eq::<T>(),
                n == self.items@.len(),
                i <= n,
                forall|j: int| 0 <= j < i ==> self.items@[j] != *x,
            decreases n - i,
        {
            proof {
                reveal(vstd::laws_eq::obeys_concrete_eq);
            }
            let cur = &self.items[i];
            if *cur == *x {
                return Some(i);
            }
            i += 1;
        }
        None
    }

    /// Whether a record equal to `query` is stored.  A pure membership
    /// test; it has no error case.
    pub fn contains(&self, query: &T) -> (r: bool)
        requires
            obeys_concrete_eq::<T>(),
        ensures
            r == self.items@.contains(*query),
    {
        self.find(query).is_some()
    }

    /// The number of stored records.
    pub fn len(&self) -> (r: i32)
        ensures
            self.items@.len() <= i32::MAX ==> r as int == self.items@.len() as int,
    {
        #[verifier::truncate]
        (self.items.len() as i32)
    }

    /// Stores `item`.  When a record equal to it is already stored, the
    /// strict duplicate policy decides: under it the call fails with
    /// [`DatabaseError::DupeFound`]; without it the call succeeds.  Either
    /// way a duplicate insertion leaves the records unchanged, so no two
    /// equal records are ever stored.
    pub fn add_item(&mut self, item: T) -> (r: Result<(), DatabaseError>)
        requires
            obeys_concrete_eq::<T>(),
            old(self).wf(),
        ensures
            final(self).wf(),
            final(self).same_config(*old(self)),
            old(self).items@.contains(item) ==> final(self).items@ == old(self).items@ && r == (
            if old(self).strict_dupes {
                Err::<(), DatabaseError>(DatabaseError::DupeFound)
            } else {
                Ok::<(), DatabaseError>(())
            }),
            !old(self).items@.contains(item) ==> r == Ok::<(), DatabaseError>(()) && final(self).items@ == old(self).items@.push(item),
            final(self).items@.contains(item),
            old(self).items@.contains(item) ==> final(self).items@.len() == old(self).items@.len(),
    {
        if self.contains(&item) {
            if self.strict_dupes {
                return Err(DatabaseError::DupeFound);
            }
            return Ok(());
        }
        proof {
            lemma_push_keeps_no_duplicates(self.items@, item);
            assert(self.items@.push(item).contains(item)) by {
                assert(self.items@.push(item)[self.items@.len() as int] == item);
            }
        }
        self.items.push(item);
        Ok(())
    }

    /// Removes the stored record equal to `item`.  Fails with
    /// [`DatabaseError::ItemNotFound`], changing nothing, when there is no
    /// such record.
    pub fn remove_item(&mut self, item: &T) -> (r: Result<(), DatabaseError>)
        requires
            obeys_concrete_eq::<T>(),
            old(self).wf(),
        ensures
            final(self).wf(),
            final(self).same_config(*old(self)),
            old(self).items@.contains(*item) ==> r == Ok::<(), DatabaseError>(()) && final(self).items@ == old(self).items@.remove_value(*item) && !final(self).items@.contains(
                *item,
            ) && final(self).items@.len() == old(self).items@.len() - 1,
            !old(self).items@.contains(*item) ==> r == Err::<(), DatabaseError>(
                DatabaseError::ItemNotFound,
            ) && final(self).items@ == old(self).items@,
            forall|x: T| x != *item ==> (final(self).items@.contains(x) <==> old(self).items@.contains(x)),
    {
        match self.find(item) {
            Some(i) => {
                proof {
                    assert(self.items@.contains(*item)) by {
                        assert(self.items@[i as int] == *item);
                    }
                    lemma_remove_first_occurrence(self.items@, *item, i as int);
                }
                self.items.remove(i);
                Ok(())
            },
            None => Err(DatabaseError::ItemNotFound),
        }
    }

    /// Replaces the stored record equal to `item` with `new`: a removal
    /// followed by an insertion, failing as whichever of the two fails
    /// first.  When `item` is absent nothing changes; when the insertion of
    /// `new` then fails under the strict duplicate policy, `item` is
    /// already gone and `new` is not stored — the replacement is not
    /// rolled back.
    pub fn update_item(&mut self, item: &T, new: T) -> (r: Result<(), DatabaseError>)
        requires
            obeys_concrete_eq::<T>(),
            old(self).wf(),
        ensures
            final(self).wf(),
            final(self).same_config(*old(self)),
            !old(self).items@.contains(*item) ==> r == Err::<(), DatabaseError>(
                DatabaseError::ItemNotFound,
            ) && final(self).items@ == old(self).items@,
            old(self).items@.contains(*item) ==> ({
                let mid = old(self).items@.remove_value(*item);
                &&& mid.contains(new) ==> final(self).items@ == mid && r == (
                if old(self).strict_dupes {
                    Err::<(), DatabaseError>(DatabaseError::DupeFound)
                } else {
                    Ok::<(), DatabaseError>(())
                })
                &&& !mid.contains(new) ==> r == Ok::<(), DatabaseError>(()) && final(self).items@
                    == mid.push(new) && final(self).items@.len() == old(self).items@.len()
                    && final(self).items@.contains(new) && (new != *item ==> !final(self).items@.contains(*item))
            }),
    {
        self.remove_item(item)?;
        self.add_item(new)?;
        Ok(())
    }

    /// The first stored record whose selected field equals `query`.
    /// Records are scanned in no specified order, so when several match,
    /// which one comes back is not specified.  Fails with
    /// [`DatabaseError::ItemNotFound`] when the selector matched no record.
    pub fn query_item<Q: PartialEq, V: Fn(&T) -> &Q>(&self, value: V, query: Q) -> (r: Result<
        &T,
        DatabaseError,
    >)
        requires
            obeys_concrete_eq::<Q>(),
            forall|i: int| #![trigger self.items@[i]] 0 <= i < self.items@.len() ==> call_requires(
                value,
                (&self.items@[i],),
            ),
        ensures
            match r {
                Ok(found) => self.items@.contains(*found) && selected(value, found, query),
                Err(e) => e == DatabaseError::ItemNotFound && forall|i: int|
                    0 <= i < self.items@.len() ==> #[trigger] passed_over(
                        value,
                        &self.items@[i],
                        query,
                    ),
            },
    {
        proof {
            reveal(vstd::laws_eq::obeys_concrete_eq);
        }
        let n = self.items.len();
        let mut i: usize = 0;
        while i < n
            invariant
                obeys_concrete_eq::<Q>(),
                n == self.items@.len(),
                i <= n,
                forall|k: int| #![trigger self.items@[k]] 0 <= k < n ==> call_requires(
                    value,
                    (&self.items@[k],),
                ),
                forall|k: int| 0 <= k < i ==> #[trigger] passed_over(
                    value,
                    &self.items@[k],
                    query,
                ),
            decreases n - i,
        {
            proof {
                reveal(vstd::laws_eq::obeys_concrete_eq);
            }
            let cur = &self.items[i];
            let got = value(cur);
            if *got == query {
                proof {
                    assert(self.items@.contains(self.items@[i as int]));
                    assert(call_ensures(value, (cur,), got) && *got == query);
                    assert(selected(value, cur, query));
                }
                return Ok(cur);
            }
            proof {
                assert(cur == &self.items@[i as int]);
                assert(call_ensures(value, (cur,), got) && *got != query);
                assert(passed_over(value, cur, query));
                assert(passed_over(value, &self.items@[i as int], query));
            }
            i += 1;
        }
        Err(DatabaseError::ItemNotFound)
    }

    /// Every stored record whose selected field equals `query`, in no
    /// specified order.  An empty result is not a success: when nothing
    /// matches, the call fails with [`DatabaseError::ItemNotFound`].
    pub fn query<Q: PartialEq, V: Fn(&T) -> &Q>(&self, value: V, query: Q) -> (r: Result<
        Vec<&T>,
        DatabaseError,
    >)
        requires
            obeys_concrete_eq::<Q>(),
            self.wf(),
            forall|i: int| #![trigger self.items@[i]] 0 <= i < self.items@.len() ==> call_requires(
                value,
                (&self.items@[i],),
            ),
        ensures
            match r {
                Ok(res) => res@.len() > 0 && (forall|j: int|
                    #![trigger res@[j]]
                    0 <= j < res@.len() ==> self.items@.contains(*res@[j]) && selected(
                        value,
                        res@[j],
                        query,
                    )) && (forall|i: int|
                    #![trigger self.items@[i]]
                    0 <= i < self.items@.len() ==> (exists|j: int|
                        0 <= j < res@.len() && *res@[j] == self.items@[i]) || passed_over(
                        value,
                        &self.items@[i],
                        query,
                    )) && res@.map_values(|t: &T| *t).no_duplicates(),
                Err(e) => e == DatabaseError::ItemNotFound && forall|i: int|
                    0 <= i < self.items@.len() ==> #[trigger] passed_over(
                        value,
                        &self.items@[i],
                        query,
                    ),
            },
    {
        proof {
            reveal(vstd::laws_eq::obeys_concrete_eq);
        }
        let n = self.items.len();
        let mut found: Vec<&T> = Vec::new();
        let mut i: usize = 0;
        while i < n
            invariant
                obeys_concrete_eq::<Q>(),
                self.wf(),
                n == self.items@.len(),
                i <= n,
                forall|k: int| #![trigger self.items@[k]] 0 <= k < n ==> call_requires(
                    value,
                    (&self.items@[k],),
                ),
                forall|j: int| #![trigger found@[j]] 0 <= j < found@.len() ==> exists|k: int|
                    0 <= k < i && *found@[j] == self.items@[k],
                forall|j: int| #![trigger found@[j]] 0 <= j < found@.len() ==> self.items@.contains(
                    *found@[j],
                ) && selected(value, found@[j], query),
                forall|k: int| #![trigger self.items@[k]] 0 <= k < i ==> (exists|j: int|
                    0 <= j < found@.len() && *found@[j] == self.items@[k]) || passed_over(
                    value,
                    &self.items@[k],
                    query,
                ),
                found@.map_values(|t: &T| *t).no_duplicates(),
            decreases n - i,
        {
            proof {
                reveal(vstd::laws_eq::obeys_concrete_eq);
            }
            let cur = &self.items[i];
            let got = value(cur);
            proof {
                assert(cur == &self.items@[i as int]);
            }
            let ghost pre = found@;
            let ghost vals = pre.map_values(|t: &T| *t);
            if *got == query {
                proof {
                    assert(self.items@.contains(self.items@[i as int]));
                    assert(call_ensures(value, (cur,), got) && *got == query);
                    assert(selected(value, cur, query));
                    assert(!vals.contains(*cur)) by {
                        if vals.contains(*cur) {
                            let j = choose|j: int| 0 <= j < vals.len() && vals[j] == *cur;
                            assert(vals[j] == *pre[j]);
                            let k0 = choose|k: int| 0 <= k < i && *pre[j] == self.items@[k];
                            assert(self.items@[k0] == self.items@[i as int]);
                        }
                    }
                    lemma_push_keeps_no_duplicates(vals, *cur);
                }
                found.push(cur);
                proof {
                    assert(found@ == pre.push(cur));
                    assert(found@.map_values(|t: &T| *t) =~= vals.push(*cur));
                    assert(found@[pre.len() as int] == cur);
                    assert forall|j: int| #![trigger found@[j]] 0 <= j < found@.len()
                        implies exists|k: int| 0 <= k < i + 1 && *found@[j] == self.items@[k] by {
                        if j < pre.len() {
                            assert(found@[j] == pre[j]);
                            let k0 = choose|k: int| 0 <= k < i && *pre[j] == self.items@[k];
                            assert(0 <= k0 < i + 1 && *found@[j] == self.items@[k0]);
                        } else {
                            assert(*found@[j] == self.items@[i as int]);
                        }
                    }
                    assert forall|j: int| #![trigger found@[j]] 0 <= j < found@.len()
                        implies self.items@.contains(*found@[j]) && selected(
                        value,
                        found@[j],
                        query,
                    ) by {
                        if j < pre.len() {
                            assert(found@[j] == pre[j]);
                        } else {
                            assert(found@[j] == cur);
                        }
                    }
                }
            } else {
                proof {
                    assert(call_ensures(value, (cur,), got) && *got != query);
                    assert(passed_over(value, cur, query));
                    assert(passed_over(value, &self.items@[i as int], query));
                }
            }
            proof {
                assert forall|k: int| #![trigger self.items@[k]] 0 <= k < i + 1 implies (exists|
                j: int|
                    0 <= j < found@.len() && *found@[j] == self.items@[k]) || passed_over(
                    value,
                    &self.items@[k],
                    query,
                ) by {
                    if k == i {
                        if pre.len() < found@.len() {
                            assert(*found@[pre.len() as int] == self.items@[i as int]);
                        }
                    } else {
                        if exists|j: int| 0 <= j < pre.len() && *pre[j] == self.items@[k] {
                            let j0 = choose|j: int| 0 <= j < pre.len() && *pre[j] == self.items@[k];
                            assert(found@[j0] == pre[j0]);
                            assert(0 <= j0 < found@.len() && *found@[j0] == self.items@[k]);
                        }
                    }
                }
            }
            i += 1;
        }
        if found.len() > 0 {
            Ok(found)
        } else {
            Err(DatabaseError::ItemNotFound)
        }
    }

    /// The effective save location: the explicit save path when one was
    /// given, else `<label>.tinydb`.
    pub fn smart_path_get(&self) -> (r: String)
        ensures
            match self.save_path {
                Some(p) => r@ == p@,
                None => r@ == self.label@ + ".tinydb"@,
            },
    {
        match &self.save_path {
            Some(p) => p.clone(),
            None => self.label.clone().concat(".tinydb"),
        }
    }

    /// The result of a load-or-create once the loading itself is done: when
    /// `loaded` carries the database decoded from the file at `path`, that
    /// database is the result, and `strict_dupes` is ignored — the loaded
    /// value carries its own policy.  When no file stood at `path`, the
    /// result is a fresh empty store whose label is the path's stem and
    /// whose save location is `path` itself; a path with no usable stem
    /// fails with [`DatabaseError::BadDbName`].
    pub fn auto_from(path: String, strict_dupes: bool, loaded: Option<Self>) -> (r: Result<
        Self,
        DatabaseError,
    >)
        ensures
            match loaded {
                Some(db) => r == Ok::<Self, DatabaseError>(db),
                None => match spec_stem(path@) {
                    Some(stem) => (r matches Ok(db) && db.label@ == stem && (
                    db.save_path matches Some(p)
                        && p@ == path@) && db.strict_dupes == strict_dupes && db.items@
                        =~= Seq::<T>::empty() && db.wf()),
                    None => r == Err::<Self, DatabaseError>(DatabaseError::BadDbName),
                },
            },
    {
        match loaded {
            Some(db) => Ok(db),
            None => match stem_of(path.as_str()) {
                Some(stem) => Ok(Self::new(stem, Some(path), strict_dupes)),
                None => Err(DatabaseError::BadDbName),
            },
        }
    }

    /// Rebuilds a store from decoded metadata and records, keeping of equal
    /// records only one: a byte image carries no guarantee of
    /// distinctness, so reconstruction enforces it silently, as decoding a
    /// dump always has.
    pub fn from_parts(label: String, save_path: Option<String>, strict_dupes: bool, records: Vec<
        T,
    >) -> (db: Self)
        requires
            obeys_concrete_eq::<T>(),
        ensures
            db.wf(),
            db.label == label,
            db.save_path == save_path,
            db.strict_dupes == strict_dupes,
            forall|x: T| db.items@.contains(x) <==> records@.contains(x),
    {
        let ghost all = records@;
        let mut db = Self::new(label, save_path, strict_dupes);
        let mut rest = records;
        while rest.len() > 0
            invariant
                obeys_concrete_eq::<T>(),
                db.wf(),
                db.label == label,
                db.save_path == save_path,
                db.strict_dupes == strict_dupes,
                rest@.len() <= all.len(),
                rest@ == all.take(rest@.len() as int),
                forall|x: T| db.items@.contains(x) <==> all.skip(rest@.len() as int).contains(x),
            decreases rest@.len(),
        {
            let ghost k = rest@.len() as int;
            let x = rest.pop().unwrap();
            proof {
                assert(x == all[k - 1]);
                assert(rest@ =~= all.take(k - 1));
            }
            let ghost pre = db.items@;
            if !db.contains(&x) {
                proof {
                    lemma_push_keeps_no_duplicates(pre, x);
                    lemma_push_membership(pre, x);
                }
                db.items.push(x);
                proof {
                    assert forall|y: T|
                        db.items@.contains(y) <==> all.skip(k).contains(y) || y == x by {
                        assert(db.items@ == pre.push(x));
                        assert(pre.push(x).contains(y) <==> pre.contains(y) || y == x);
                        assert(pre.contains(y) <==> all.skip(k).contains(y));
                    }
                }
            } else {
                proof {
                    assert forall|y: T|
                        db.items@.contains(y) <==> all.skip(k).contains(y) || y == x by {
                        assert(db.items@.contains(y) <==> all.skip(k).contains(y));
                        if y == x {
                            assert(db.items@.contains(x));
                        }
                    }
                }
            }
            proof {
                lemma_skip_one_more(all, k - 1, x, db.items@);
            }
        }
        proof {
            assert(all.skip(0) =~= all);
        }
        db
    }
}

/// A selector observation that matched: some run of `value` on `t`
/// returned (a reference to) a field equal to `query`.
pub open spec fn selected<T, Q: PartialEq, V: Fn(&T) -> &Q>(value: V, t: &T, query: Q) -> bool {
    exists|q: &Q| call_ensures(value, (t,), q) && *q == query
}

/// A selector observation that did not match: some run of `value` on `t`
/// returned (a reference to) a field different from `query`.
pub open spec fn passed_over<T, Q: PartialEq, V: Fn(&T) -> &Q>(value: V, t: &T, query: Q) -> bool {
    exists|q: &Q| call_ensures(value, (t,), q) && *q != query
}

/// Appending a fresh element keeps a sequence duplicate-free.
proof fn lemma_push_keeps_no_duplicates<T>(s: Seq<T>, x: T)
    requires
        s.no_duplicates(),
        !s.contains(x),
    ensures
        s.push(x).no_duplicates(),
{
    let t = s.push(x);
    assert forall|i: int, j: int|
        0 <= i < t.len() && 0 <= j < t.len() && i != j implies t[i] != t[j] by {
        if i < s.len() && j < s.len() {
        } else if i < s.len() {
            assert(s.contains(s[i]));
        } else if j < s.len() {
            assert(s.contains(s[j]));
        }
    }
}

/// What a push does to membership.
proof fn lemma_push_membership<T>(s: Seq<T>, x: T)
    ensures
        forall|y: T| s.push(x).contains(y) <==> s.contains(y) || y == x,
{
    assert forall|y: T| s.push(x).contains(y) <==> s.contains(y) || y == x by {
        let t = s.push(x);
        if t.contains(y) {
            let j = choose|j: int| 0 <= j < t.len() && t[j] == y;
            if j < s.len() {
                assert(s[j] == y);
                assert(s.contains(y));
            }
        }
        if s.contains(y) {
            let j = choose|j: int| 0 <= j < s.len() && s[j] == y;
            assert(t[j] == y);
        }
        if y == x {
            assert(t[s.len() as int] == y);
        }
    }
}

/// Membership after taking in the element at index `k`: what held of the
/// suffix past `k + 1`, together with that element itself.
proof fn lemma_skip_one_more<T>(all: Seq<T>, k: int, x: T, now: Seq<T>)
    requires
        0 <= k < all.len(),
        x == all[k],
        forall|y: T| now.contains(y) <==> all.skip(k + 1).contains(y) || y == x,
    ensures
        forall|y: T| now.contains(y) <==> all.skip(k).contains(y),
{
    assert forall|y: T| now.contains(y) <==> all.skip(k).contains(y) by {
        let s1 = all.skip(k + 1);
        let s0 = all.skip(k);
        assert(s0[0] == all[k]);
        if s1.contains(y) {
            let j = choose|j: int| 0 <= j < s1.len() && s1[j] == y;
            assert(s0[j + 1] == all[k + 1 + j]);
            assert(s0.contains(y));
        }
        if y == x {
            assert(s0.contains(y)) by {
                assert(s0[0] == y);
            }
        }
        if s0.contains(y) {
            let j = choose|j: int| 0 <= j < s0.len() && s0[j] == y;
            if j == 0 {
                assert(y == x);
            } else {
                assert(s1[j - 1] == all[k + 1 + (j - 1)]);
                assert(s1.contains(y));
            }
        }
    }
}

/// Removing the first occurrence of a value from a duplicate-free sequence
/// removes its only occurrence.
proof fn lemma_remove_first_occurrence<T>(s: Seq<T>, x: T, i: int)
    requires
        s.no_duplicates(),
        0 <= i < s.len(),
        s[i] == x,
        forall|j: int| 0 <= j < i ==> s[j] != x,
    ensures
        s.index_of_first(x) == Some(i),
        s.remove(i) == s.remove_value(x),
        s.remove(i).no_duplicates(),
        !s.remove(i).contains(x),
        forall|y: T| y != x ==> (s.remove(i).contains(y) <==> s.contains(y)),
{
    s.index_of_first_ensures(x);
    assert(s.contains(x));
    let f = s.index_of_first(x);
    let fi = f->0;
    if fi < i {
        assert(s[fi] != x);
    }
    if i < fi {
    }
    assert(f == Some(i));
    let t = s.remove(i);
    assert forall|k: int| 0 <= k < t.len() implies t[k] != x by {
        if k < i {
        } else {
            assert(t[k] == s[k + 1]);
        }
    }
    assert(!t.contains(x)) by {
        if t.contains(x) {
            let k = choose|k: int| 0 <= k < t.len() && t[k] == x;
            assert(t[k] != x);
        }
    }
    assert(t.no_duplicates()) by {
        assert forall|a: int, b: int|
            0 <= a < t.len() && 0 <= b < t.len() && a != b implies t[a] != t[b] by {
            let sa = if a < i {
                a
            } else {
                a + 1
            };
            let sb = if b < i {
                b
            } else {
                b + 1
            };
            assert(t[a] == s[sa] && t[b] == s[sb]);
        }
    }
    assert forall|y: T| y != x implies (t.contains(y) <==> s.contains(y)) by {
        if t.contains(y) {
            let k = choose|k: int| 0 <= k < t.len() && t[k] == y;
            let sk = if k < i {
                k
            } else {
                k + 1
            };
            assert(s[sk] == y);
            assert(s.contains(y));
        }
        if s.contains(y) {
            let k = choose|k: int| 0 <= k < s.len() && s[k] == y;
            if k < i {
                assert(t[k] == y);
            } else {
                assert(k != i);
                assert(t[k - 1] == y);
            }
            assert(t.contains(y));
        }
    }
}

} // verus!
