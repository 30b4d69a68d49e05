//! The object store: full texts filed under the hash of their content.
//!
//! Equal texts have equal hashes, so a text that is put twice is held once.
//! The store never changes the text under a hash that it already holds.

use vstd::prelude::*;
use crate::error::ErrorKind;
use crate::hash::{blake3_hex, content_hash};

verus! {

struct Blob {
    hash: String,
    content: String,
}

/// A content-addressed store of texts. Its value is the map from hash to
/// text.
pub struct ObjectStore {
    blobs: Vec<Blob>,
}

spec fn holds(blobs: Seq<Blob>, h: Seq<char>) -> bool {
    exists|i: int| 0 <= i < blobs.len() && (#[trigger] blobs[i]).hash@ == h
}

spec fn slot(blobs: Seq<Blob>, h: Seq<char>) -> int {
    choose|i: int| 0 <= i < blobs.len() && (#[trigger] blobs[i]).hash@ == h
}

spec fn distinct(blobs: Seq<Blob>) -> bool {
    forall|i: int, j: int|
        0 <= i < j < blobs.len() ==> (#[trigger] blobs[i]).hash@ != (#[trigger] blobs[j]).hash@
}

spec fn addressed(blobs: Seq<Blob>) -> bool {
    forall|i: int|
        0 <= i < blobs.len() ==> (#[trigger] blobs[i]).hash@ == blake3_hex(blobs[i].content@)
}

spec fn as_map(blobs: Seq<Blob>) -> Map<Seq<char>, Seq<char>> {
    Map::new(|h: Seq<char>| holds(blobs, h), |h: Seq<char>| blobs[slot(blobs, h)].content@)
}

proof fn lemma_slot(blobs: Seq<Blob>, i: int)
    requires
        distinct(blobs),
        0 <= i < blobs.len(),
    ensures
        holds(blobs, blobs[i].hash@),
        slot(blobs, blobs[i].hash@) == i,
        as_map(blobs).contains_key(blobs[i].hash@),
        as_map(blobs)[blobs[i].hash@] == blobs[i].content@,
{
    let h = blobs[i].hash@;
    assert(holds(blobs, h));
    let k = slot(blobs, h);
    assert(0 <= k < blobs.len() && blobs[k].hash@ == h);
    if k < i {
        assert(blobs[k].hash@ != blobs[i].hash@);
    } else if i < k {
        assert(blobs[i].hash@ != blobs[k].hash@);
    }
}

proof fn lemma_as_map(blobs: Seq<Blob>, m: Map<Seq<char>, Seq<char>>)
    requires
        distinct(blobs),
        forall|i: int|
            0 <= i < blobs.len() ==> m.contains_key((#[trigger] blobs[i]).hash@)
                && m[blobs[i].hash@] == blobs[i].content@,
        forall|h: Seq<char>| #[trigger] m.contains_key(h) ==> holds(blobs, h),
    ensures
        as_map(blobs) == m,
{
    assert forall|h: Seq<char>| #[trigger]
        as_map(blobs).dom().contains(h) == m.dom().contains(h) by {
        if as_map(blobs).dom().contains(h) {
            let k = slot(blobs, h);
            assert(m.contains_key(blobs[k].hash@));
        }
        if m.dom().contains(h) {
            assert(m.contains_key(h));
        }
    }
    assert forall|h: Seq<char>| #[trigger]
        as_map(blobs).dom().contains(h) implies as_map(blobs)[h] == m[h] by {
        let k = slot(blobs, h);
        lemma_slot(blobs, k);
    }
    assert(as_map(blobs) =~= m);
}

proof fn lemma_size(blobs: Seq<Blob>)
    requires
        distinct(blobs),
    ensures
        as_map(blobs).dom().finite(),
        as_map(blobs).dom().len() == blobs.len(),
    decreases blobs.len(),
{
    if blobs.len() == 0 {
        assert(as_map(blobs).dom() =~= Set::<Seq<char>>::empty());
    } else {
        let front = blobs.drop_last();
        let h = blobs.last().hash@;
        lemma_size(front);
        assert(!holds(front, h)) by {
            if holds(front, h) {
                let k = slot(front, h);
                assert(blobs[k].hash@ != blobs[blobs.len() - 1].hash@);
            }
        }
        assert(as_map(blobs).dom() =~= as_map(front).dom().insert(h)) by {
            assert forall|x: Seq<char>| as_map(blobs).dom().contains(x) implies as_map(
                front,
            ).dom().insert(h).contains(x) by {
                let k = slot(blobs, x);
                if k < front.len() {
                    assert(front[k].hash@ == x);
                }
            }
            assert forall|x: Seq<char>| as_map(front).dom().insert(h).contains(
                x,
            ) implies as_map(blobs).dom().contains(x) by {
                if x == h {
                    assert(blobs[blobs.len() - 1].hash@ == x);
                } else {
                    let k = slot(front, x);
                    assert(blobs[k].hash@ == x);
                }
            }
        }
    }
}

/// The store that `put` leaves: `objects` with `content` filed under its
/// hash, unless that hash is taken already.
pub open spec fn put_of(objects: Map<Seq<char>, Seq<char>>, content: Seq<char>) -> Map<
    Seq<char>,
    Seq<char>,
> {
    let h = blake3_hex(content);
    if objects.contains_key(h) {
        objects
    } else {
        objects.insert(h, content)
    }
}

/// Every text of `objects` is filed under its own hash.
pub open spec fn content_addressed(objects: Map<Seq<char>, Seq<char>>) -> bool {
    forall|h: Seq<char>| #[trigger] objects.contains_key(h) ==> h == blake3_hex(objects[h])
}

impl View for ObjectStore {
    type V = Map<Seq<char>, Seq<char>>;

    closed spec fn view(&self) -> Map<Seq<char>, Seq<char>> {
        as_map(self.blobs@)
    }
}

impl ObjectStore {
    /// The invariant of the store: no hash is filed twice, and every text
    /// is filed under its own hash.
    pub closed spec fn wf(&self) -> bool {
        &&& distinct(self.blobs@)
        &&& addressed(self.blobs@)
    }

    /// A well-formed store holds finitely many objects, each under the hash
    /// of its own content.
    pub proof fn lemma_wf(&self)
        requires
            self.wf(),
        ensures
            self@.dom().finite(),
            content_addressed(self@),
    {
        lemma_size(self.blobs@);
        assert forall|h: Seq<char>| #[trigger] self@.contains_key(h) implies h == blake3_hex(
            self@[h],
        ) by {
            let k = slot(self.blobs@, h);
            lemma_slot(self.blobs@, k);
        }
    }

    /// The empty store.
    pub fn new() -> (r: ObjectStore)
        ensures
            r.wf(),
            r@ == Map::<Seq<char>, Seq<char>>::empty(),
    {
        let r = ObjectStore { blobs: Vec::new() };
        assert(r@ =~= Map::<Seq<char>, Seq<char>>::empty());
        r
    }

    fn position(&self, hash: &str) -> (r: Option<usize>)
        requires
            self.wf(),
        ensures
            match r {
                Some(i) => i < self.blobs.len() && self.blobs[i as int].hash@ == hash@
                    && self@.contains_key(hash@) && self@[hash@] == self.blobs[i as int].content@,
                None => !self@.contains_key(hash@),
            },
    {
        let key = hash.to_owned();
        let mut i: usize = 0;
        while i < self.blobs.len()
            invariant
                self.wf(),
                i <= self.blobs.len(),
                key@ == hash@,
                forall|k: int| 0 <= k < i ==> (#[trigger] self.blobs[k]).hash@ != hash@,
            decreases self.blobs.len() - i,
        {
            if self.blobs[i].hash == key {
                proof {
                    lemma_slot(self.blobs@, i as int);
                }
                return Some(i);
            }
            i += 1;
        }
        None
    }

    /// Whether an object is filed under `hash`.
    pub fn contains(&self, hash: &str) -> (r: bool)
        requires
            self.wf(),
        ensures
            r == self@.contains_key(hash@),
    {
        self.position(hash).is_some()
    }

    /// The text filed under `hash`; `NotFound` where there is none.
    pub fn get(&self, hash: &str) -> (r: Result<String, ErrorKind>)
        requires
            self.wf(),
        ensures
            match r {
                Ok(content) => self@.contains_key(hash@) && content@ == self@[hash@],
                Err(kind) => !self@.contains_key(hash@) && kind == ErrorKind::NotFound,
            },
    {
        match self.position(hash) {
            Some(i) => Ok(self.blobs[i].content.clone()),
            None => Err(ErrorKind::NotFound),
        }
    }

    /// The number of objects in the store.
    pub fn len(&self) -> (r: usize)
        requires
            self.wf(),
        ensures
            self@.dom().finite(),
            r == self@.len(),
    {
        proof {
            lemma_size(self.blobs@);
        }
        self.blobs.len()
    }

    /// Removes the object filed under `hash`, whatever refers to it, and
    /// says whether there was one.
    pub fn delete(&mut self, hash: &str) -> (r: bool)
        requires
            old(self).wf(),
        ensures
            final(self).wf(),
            r == old(self)@.contains_key(hash@),
            final(self)@ == old(self)@.remove(hash@),
    {
        match self.position(hash) {
            Some(i) => {
                let ghost before = self.blobs@;
                self.blobs.remove(i);
                proof {
                    let after = self.blobs@;
                    assert forall|k: int| 0 <= k < after.len() implies #[trigger] after[k]
                        == before[if k < i { k } else { k + 1 }] by {}
                    assert(distinct(after)) by {
                        assert forall|a: int, b: int| 0 <= a < b < after.len() implies (
                        #[trigger] after[a]).hash@ != (#[trigger] after[b]).hash@ by {
                            let x = if a < i { a } else { a + 1 };
                            let y = if b < i { b } else { b + 1 };
                            assert(before[x].hash@ != before[y].hash@);
                        }
                    }
                    assert(addressed(after)) by {
                        assert forall|a: int| 0 <= a < after.len() implies (
                        #[trigger] after[a]).hash@ == blake3_hex(after[a].content@) by {
                            let x = if a < i { a } else { a + 1 };
                            assert(before[x].hash@ == blake3_hex(before[x].content@));
                        }
                    }
                    let target = as_map(before).remove(hash@);
                    assert forall|a: int| 0 <= a < after.len() implies target.contains_key(
                        (#[trigger] after[a]).hash@,
                    ) && target[after[a].hash@] == after[a].content@ by {
                        let x = if a < i { a } else { a + 1 };
                        lemma_slot(before, x);
                        if x < i {
                            assert(before[x].hash@ != before[i as int].hash@);
                        } else {
                            assert(before[i as int].hash@ != before[x].hash@);
                        }
                    }
                    assert forall|h: Seq<char>| #[trigger] target.contains_key(h) implies holds(
                        after,
                        h,
                    ) by {
                        let x = slot(before, h);
                        assert(x != i);
                        let a = if x < i { x } else { x - 1 };
                        assert(after[a].hash@ == h);
                    }
                    lemma_as_map(after, target);
                }
                true
            },
            None => {
                assert(self@ =~= old(self)@.remove(hash@));
                false
            },
        }
    }

    /// Removes every object whose hash is not one of `keep`, and returns
    /// how many objects it removed.
    pub fn retain(&mut self, keep: &Vec<String>) -> (removed: usize)
        requires
            old(self).wf(),
        ensures
            final(self).wf(),
            final(self)@ == old(self)@.restrict(keep.deep_view().to_set()),
            old(self)@.dom().finite(),
            final(self)@.dom().finite(),
            removed == old(self)@.len() - final(self)@.len(),
    {
        let ghost wanted = keep.deep_view().to_set();
        let mut rest: Vec<Blob> = Vec::new();
        core::mem::swap(&mut self.blobs, &mut rest);
        let ghost before = rest@;
        let total = rest.len();
        let mut kept: Vec<Blob> = Vec::new();
        let ghost mut src: Seq<int> = Seq::empty();
        while rest.len() > 0
            invariant
                distinct(before),
                addressed(before),
                wanted == keep.deep_view().to_set(),
                rest@ == before.take(rest.len() as int),
                rest.len() <= before.len(),
                src.len() == kept.len(),
                kept.len() + rest.len() <= before.len(),
                forall|j: int|
                    0 <= j < kept.len() ==> rest.len() <= #[trigger] src[j] < before.len()
                        && kept[j] == before[src[j]] && wanted.contains(kept[j].hash@),
                forall|a: int, b: int| 0 <= a < b < src.len() ==> src[a] > src[b],
                forall|i: int|
                    rest.len() <= i < before.len() && wanted.contains(
                        (#[trigger] before[i]).hash@,
                    ) ==> exists|j: int| 0 <= j < src.len() && #[trigger] src[j] == i,
            decreases rest.len(),
        {
            let ghost n = rest.len() - 1;
            let ghost src_before = src;
            let blob = rest.pop().unwrap();
            assert(blob == before[n]);
            if crate::text::list_contains(keep, &blob.hash) {
                kept.push(blob);
                proof {
                    src = src.push(n);
                    assert(src[src.len() - 1] == n);
                }
            }
            proof {
                assert forall|i: int|
                    rest.len() <= i < before.len() && wanted.contains(
                        (#[trigger] before[i]).hash@,
                    ) implies exists|j: int| 0 <= j < src.len() && #[trigger] src[j] == i by {
                    if i == n {
                        assert(src[src.len() - 1] == n);
                    } else {
                        let j = choose|j: int|
                            0 <= j < src_before.len() && #[trigger] src_before[j] == i;
                        assert(src[j] == i);
                    }
                }
            }
        }
        self.blobs = kept;
        proof {
            let after = self.blobs@;
            assert(distinct(after)) by {
                assert forall|a: int, b: int| 0 <= a < b < after.len() implies (
                #[trigger] after[a]).hash@ != (#[trigger] after[b]).hash@ by {
                    assert(src[a] > src[b]);
                    assert(before[src[b]].hash@ != before[src[a]].hash@);
                }
            }
            assert(addressed(after)) by {
                assert forall|a: int| 0 <= a < after.len() implies (#[trigger] after[a]).hash@
                    == blake3_hex(after[a].content@) by {
                    assert(before[src[a]].hash@ == blake3_hex(before[src[a]].content@));
                }
            }
            let target = as_map(before).restrict(wanted);
            assert forall|a: int| 0 <= a < after.len() implies target.contains_key(
                (#[trigger] after[a]).hash@,
            ) && target[after[a].hash@] == after[a].content@ by {
                lemma_slot(before, src[a]);
            }
            assert forall|h: Seq<char>| #[trigger] target.contains_key(h) implies holds(
                after,
                h,
            ) by {
                let i = slot(before, h);
                assert(wanted.contains(before[i].hash@));
                let j = choose|j: int| 0 <= j < src.len() && #[trigger] src[j] == i;
                assert(after[j].hash@ == h);
            }
            lemma_as_map(after, target);
            lemma_size(before);
            lemma_size(after);
        }
        total - self.blobs.len()
    }

    /// Files `content` under its hash, unless an object is filed there
    /// already, and returns the hash.
    pub fn put(&mut self, content: &str) -> (hash: String)
        requires
            old(self).wf(),
        ensures
            final(self).wf(),
            hash@ == blake3_hex(content@),
            final(self)@ == put_of(old(self)@, content@),
    {
        let hash = content_hash(content);
        if self.position(hash.as_str()).is_none() {
            let ghost before = self.blobs@;
            self.blobs.push(Blob { hash: hash.clone(), content: content.to_owned() });
            proof {
                let after = self.blobs@;
                let last = after.len() - 1;
                assert(after[last].hash@ == hash@);
                assert(distinct(after)) by {
                    assert forall|i: int, j: int| 0 <= i < j < after.len() implies (
                    #[trigger] after[i]).hash@ != (#[trigger] after[j]).hash@ by {
                        if j < last {
                            assert(before[i].hash@ != before[j].hash@);
                        } else {
                            assert(before[i].hash@ != hash@);
                        }
                    }
                }
                assert(addressed(after)) by {
                    assert forall|i: int| 0 <= i < after.len() implies (
                    #[trigger] after[i]).hash@ == blake3_hex(after[i].content@) by {
                        if i < last {
                            assert(before[i].hash@ == blake3_hex(before[i].content@));
                        }
                    }
                }
                let target = as_map(before).insert(hash@, content@);
                assert forall|i: int| 0 <= i < after.len() implies target.contains_key(
                    (#[trigger] after[i]).hash@,
                ) && target[after[i].hash@] == after[i].content@ by {
                    if i < last {
                        lemma_slot(before, i);
                    }
                }
                assert forall|h: Seq<char>| #[trigger] target.contains_key(h) implies holds(
                    after,
                    h,
                ) by {
                    if h == hash@ {
                        assert(after[last].hash@ == h);
                    } else {
                        let k = slot(before, h);
                        assert(after[k].hash@ == h);
                    }
                }
                lemma_as_map(after, target);
            }
        }
        hash
    }
}

} // verus!
