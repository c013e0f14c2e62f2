//! The materialized view: the latest payload seen for each entity.

use vstd::prelude::*;

use crate::error::Error;
use crate::event::Event;
use crate::journal::{str_copy, str_eq};

verus! {

/// The payload a state list holds for an entity, if any.
pub open spec fn find_state(st: Seq<(String, Vec<u8>)>, id: Seq<char>) -> Option<Seq<u8>>
    decreases st.len(),
{
    if st.len() == 0 {
        None
    } else if st[0].0@ == id {
        Some(st[0].1@)
    } else {
        find_state(st.drop_first(), id)
    }
}

/// The latest payload per entity, kept up to date from the event stream.
/// Deliberately lossy: only the most recently applied payload survives;
/// point-in-time questions belong to the journal.
pub struct InMemoryMaterializedView {
    state: Vec<(String, Vec<u8>)>,
}

impl InMemoryMaterializedView {
    /// The payload currently held for an entity.
    pub closed spec fn current(&self, id: Seq<char>) -> Option<Seq<u8>> {
        find_state(self.state@, id)
    }

    /// Entries belong to distinct entities.
    pub closed spec fn wf(&self) -> bool {
        forall|i: int, j: int| 0 <= i < j < self.state@.len() ==> (#[trigger] self.state@[i].0)@
            != (#[trigger] self.state@[j].0)@
    }

    /// An empty view.
    pub fn new() -> (r: Self)
        ensures
            r.wf(),
            forall|id: Seq<char>| r.current(id) is None,
    {
        InMemoryMaterializedView { state: Vec::new() }
    }

    /// Apply one event: its payload becomes the entity's current value.
    pub fn apply_event(&mut self, event: &Event) -> (r: Result<(), Error>)
        requires
            old(self).wf(),
        ensures
            final(self).wf(),
            r is Ok,
            final(self).current(event@.entity_id) == Some(event@.payload_data),
            forall|id: Seq<char>| id != event@.entity_id ==> final(self).current(id) == old(self).current(id),
    {
        let data = vstd::slice::slice_to_vec(event.payload.data.as_slice());
        let mut i: usize = 0;
        while i < self.state.len()
            invariant
                i <= self.state@.len(),
                *self == *old(self),
                self.wf(),
                data@ == event@.payload_data,
                forall|k: int| 0 <= k < i ==> (#[trigger] self.state@[k].0)@ != event@.entity_id,
            decreases self.state@.len() - i,
        {
            let hit = {
                let p = &self.state[i];
                str_eq(p.0.as_str(), event.entity_id())
            };
            if hit {
                let ghost pre = self.state@;
                let mut p = self.state.remove(i);
                p.1 = data;
                let ghost p2 = p;
                self.state.insert(i, p);
                proof {
                    assert(self.state@ =~= pre.update(i as int, p2));
                    lemma_find_state_update(pre, i as int, p2, event@.entity_id);
                }
                return Ok(());
            }
            i += 1;
        }
        let ghost pre = self.state@;
        let p = (str_copy(event.entity_id()), data);
        let ghost p2 = p;
        self.state.push(p);
        proof {
            assert(self.state@ =~= pre.push(p2));
            lemma_find_state_push(pre, p2);
        }
        Ok(())
    }

    /// The raw payload currently held for an entity, if any.
    pub fn get_current_raw(&self, entity_id: &str) -> (r: Result<Option<Vec<u8>>, Error>)
        requires
            self.wf(),
        ensures
            r matches Ok(o) && (match o {
                Some(v) => self.current(entity_id@) == Some(v@),
                None => self.current(entity_id@) is None,
            }),
    {
        let mut i: usize = 0;
        while i < self.state.len()
            invariant
                i <= self.state@.len(),
                forall|k: int| 0 <= k < i ==> (#[trigger] self.state@[k].0)@ != entity_id@,
            decreases self.state@.len() - i,
        {
            let hit = {
                let p = &self.state[i];
                str_eq(p.0.as_str(), entity_id)
            };
            if hit {
                proof {
                    lemma_find_state_at(self.state@, entity_id@, i as int);
                }
                let p = &self.state[i];
                return Ok(Some(vstd::slice::slice_to_vec(p.1.as_slice())));
            }
            i += 1;
        }
        proof {
            lemma_find_state_none(self.state@, entity_id@);
        }
        Ok(None)
    }
}

proof fn lemma_find_state_at(st: Seq<(String, Vec<u8>)>, id: Seq<char>, i: int)
    requires
        0 <= i < st.len(),
        forall|k: int| 0 <= k < i ==> (#[trigger] st[k].0)@ != id,
        (st[i].0)@ == id,
    ensures
        find_state(st, id) == Some(st[i].1@),
    decreases st.len(),
{
    if i > 0 {
        assert(forall|k: int| 0 <= k < st.drop_first().len() ==> st.drop_first()[k] == st[k + 1]);
        lemma_find_state_at(st.drop_first(), id, i - 1);
    }
}

proof fn lemma_find_state_none(st: Seq<(String, Vec<u8>)>, id: Seq<char>)
    requires
        forall|k: int| 0 <= k < st.len() ==> (#[trigger] st[k].0)@ != id,
    ensures
        find_state(st, id) is None,
    decreases st.len(),
{
    if st.len() > 0 {
        lemma_find_state_none(st.drop_first(), id);
    }
}

proof fn lemma_find_state_update(st: Seq<(String, Vec<u8>)>, i: int, p2: (String, Vec<u8>), id:
    Seq<char>)
    requires
        0 <= i < st.len(),
        forall|k: int| 0 <= k < i ==> (#[trigger] st[k].0)@ != id,
        (st[i].0)@ == id,
        (p2.0)@ == id,
    ensures
        find_state(st.update(i, p2), id) == Some(p2.1@),
        forall|other: Seq<char>| other != id ==> find_state(st.update(i, p2), other) == find_state(
            st,
            other,
        ),
    decreases st.len(),
{
    let u = st.update(i, p2);
    if i == 0 {
        assert(u[0] == p2);
        assert forall|other: Seq<char>| other != id implies find_state(u, other) == find_state(
            st,
            other,
        ) by {
            assert(u.drop_first() =~= st.drop_first());
            assert(find_state(u.drop_first(), other) == find_state(st.drop_first(), other));
        }
    } else {
        assert(u[0] == st[0]);
        assert(u.drop_first() =~= st.drop_first().update(i - 1, p2));
        assert(forall|k: int| 0 <= k < st.drop_first().len() ==> st.drop_first()[k] == st[k + 1]);
        lemma_find_state_update(st.drop_first(), i - 1, p2, id);
        assert(find_state(u, id) == Some(p2.1@)) by {
            assert(find_state(u.drop_first(), id) == find_state(
                st.drop_first().update(i - 1, p2),
                id,
            ));
        }
        assert forall|other: Seq<char>| other != id implies find_state(u, other) == find_state(
            st,
            other,
        ) by {
            assert(find_state(u.drop_first(), other) == find_state(
                st.drop_first().update(i - 1, p2),
                other,
            ));
            assert(find_state(st.drop_first().update(i - 1, p2), other) == find_state(
                st.drop_first(),
                other,
            ));
        }
    }
}

proof fn lemma_find_state_push(st: Seq<(String, Vec<u8>)>, p2: (String, Vec<u8>))
    requires
        forall|k: int| 0 <= k < st.len() ==> (#[trigger] st[k].0)@ != (p2.0)@,
    ensures
        find_state(st.push(p2), (p2.0)@) == Some(p2.1@),
        forall|other: Seq<char>| other != (p2.0)@ ==> find_state(st.push(p2), other) == find_state(
            st,
            other,
        ),
    decreases st.len(),
{
    let u = st.push(p2);
    if st.len() == 0 {
        assert(u[0] == p2);
        assert forall|other: Seq<char>| other != (p2.0)@ implies find_state(u, other)
            == find_state(st, other) by {
            assert(u.drop_first() =~= Seq::<(String, Vec<u8>)>::empty());
            assert(find_state(u.drop_first(), other) is None);
            assert(find_state(st, other) is None);
        }
    } else {
        assert(u[0] == st[0]);
        assert(u.drop_first() =~= st.drop_first().push(p2));
        assert(forall|k: int| 0 <= k < st.drop_first().len() ==> st.drop_first()[k] == st[k + 1]);
        lemma_find_state_push(st.drop_first(), p2);
        assert(find_state(u, (p2.0)@) == Some(p2.1@)) by {
            assert(find_state(u.drop_first(), (p2.0)@) == find_state(
                st.drop_first().push(p2),
                (p2.0)@,
            ));
        }
        assert forall|other: Seq<char>| other != (p2.0)@ implies find_state(u, other)
            == find_state(st, other) by {
            assert(find_state(u.drop_first(), other) == find_state(
                st.drop_first().push(p2),
                other,
            ));
            assert(find_state(st.drop_first().push(p2), other) == find_state(
                st.drop_first(),
                other,
            ));
        }
    }
}

} // verus!
