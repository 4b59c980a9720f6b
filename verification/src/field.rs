use vstd::prelude::*;

verus! {

broadcast use vstd::seq_lib::group_seq_properties;

// ---------------------------------------------------------------------------
// The rooms of a field: a list of (name, value) entries read as a map.
// ---------------------------------------------------------------------------

/// Position of the first entry at or after `i` whose room name is `name`.
pub open spec fn find_room_from<V>(rooms: Seq<(String, V)>, name: Seq<char>, i: int) -> Option<
    int,
>
    decreases rooms.len() - i,
{
    if i < 0 || i >= rooms.len() {
        None
    } else if rooms[i].0@ == name {
        Some(i)
    } else {
        find_room_from(rooms, name, i + 1)
    }
}

/// Position of the entry that holds room `name`: the first entry with that name.
pub open spec fn room_index<V>(rooms: Seq<(String, V)>, name: Seq<char>) -> Option<int> {
    find_room_from(rooms, name, 0)
}

/// The rooms of a list of entries, as a map from room name to value.
/// A name that occurs more than once is given the value of its first entry.
pub open spec fn room_map<V>(rooms: Seq<(String, V)>) -> Map<Seq<char>, V> {
    Map::new(
        |name: Seq<char>| room_index(rooms, name) is Some,
        |name: Seq<char>| rooms[room_index(rooms, name).unwrap()].1,
    )
}

/// No room name occurs twice.
pub open spec fn distinct_rooms<V>(rooms: Seq<(String, V)>) -> bool {
    forall|i: int, j: int|
        0 <= i < rooms.len() && 0 <= j < rooms.len() && i != j ==> #[trigger] rooms[i].0@
            != #[trigger] rooms[j].0@
}

proof fn lemma_find_room_from<V>(rooms: Seq<(String, V)>, name: Seq<char>, i: int)
    requires
        0 <= i <= rooms.len(),
    ensures
        match find_room_from(rooms, name, i) {
            Some(j) => i <= j < rooms.len() && rooms[j].0@ == name && forall|m: int|
                i <= m < j ==> #[trigger] rooms[m].0@ != name,
            None => forall|m: int| i <= m < rooms.len() ==> #[trigger] rooms[m].0@ != name,
        },
    decreases rooms.len() - i,
{
    if i < rooms.len() && rooms[i].0@ != name {
        lemma_find_room_from(rooms, name, i + 1);
    }
}

/// `room_index` is the first position that holds `name`, or none when no position does.
pub proof fn lemma_room_index<V>(rooms: Seq<(String, V)>, name: Seq<char>)
    ensures
        match room_index(rooms, name) {
            Some(j) => 0 <= j < rooms.len() && rooms[j].0@ == name && forall|m: int|
                0 <= m < j ==> #[trigger] rooms[m].0@ != name,
            None => forall|m: int| 0 <= m < rooms.len() ==> #[trigger] rooms[m].0@ != name,
        },
{
    lemma_find_room_from(rooms, name, 0);
}

proof fn lemma_find_room_push<V>(rooms: Seq<(String, V)>, entry: (String, V), name: Seq<char>, i: int)
    requires
        0 <= i <= rooms.len(),
    ensures
        find_room_from(rooms.push(entry), name, i) == match find_room_from(rooms, name, i) {
            Some(j) => Some(j),
            None => if entry.0@ == name {
                Some(rooms.len() as int)
            } else {
                None
            },
        },
    decreases rooms.len() - i,
{
    if i < rooms.len() {
        assert(rooms.push(entry)[i] == rooms[i]);
        lemma_find_room_push(rooms, entry, name, i + 1);
    } else {
        assert(rooms.push(entry)[i] == entry);
        assert(find_room_from(rooms.push(entry), name, i + 1) is None);
    }
}

proof fn lemma_find_room_same_names<V>(a: Seq<(String, V)>, b: Seq<(String, V)>, name: Seq<char>, i: int)
    requires
        a.len() == b.len(),
        forall|m: int| 0 <= m < a.len() ==> #[trigger] a[m].0@ == b[m].0@,
    ensures
        find_room_from(a, name, i) == find_room_from(b, name, i),
    decreases a.len() - i,
{
    if 0 <= i < a.len() {
        assert(a[i].0@ == b[i].0@);
        lemma_find_room_same_names(a, b, name, i + 1);
    }
}

/// In a list of entries with distinct names, every entry is a room of its own:
/// the number of rooms is the number of entries.
pub proof fn law_room_count<V>(rooms: Seq<(String, V)>)
    requires
        distinct_rooms(rooms),
    ensures
        room_map(rooms).dom().finite(),
        room_map(rooms).dom().len() == rooms.len(),
    decreases rooms.len(),
{
    if rooms.len() == 0 {
        assert(room_map(rooms).dom() =~= Set::<Seq<char>>::empty());
    } else {
        let rest = rooms.drop_last();
        let entry = rooms.last();
        assert(rooms =~= rest.push(entry));
        assert(distinct_rooms(rest)) by {
            assert forall|i: int, j: int|
                0 <= i < rest.len() && 0 <= j < rest.len() && i != j implies #[trigger] rest[i].0@
                != #[trigger] rest[j].0@ by {
                assert(rooms[i] == rest[i] && rooms[j] == rest[j]);
            }
        }
        law_room_count(rest);
        assert forall|k: Seq<char>| #[trigger] room_index(rooms, k) == match room_index(rest, k) {
            Some(j) => Some(j),
            None => if entry.0@ == k {
                Some(rest.len() as int)
            } else {
                None
            },
        } by {
            lemma_find_room_push(rest, entry, k, 0);
        }
        assert(!room_map(rest).dom().contains(entry.0@)) by {
            lemma_room_index(rest, entry.0@);
            if let Some(j) = room_index(rest, entry.0@) {
                assert(rooms[j] == rest[j]);
                assert(rooms[rooms.len() - 1] == entry);
            }
        }
        assert(room_map(rooms).dom() =~= room_map(rest).dom().insert(entry.0@));
    }
}

// ---------------------------------------------------------------------------
// The connections of a field.
// ---------------------------------------------------------------------------

/// The connection `c` joins rooms `a` and `b`, in either order.
pub open spec fn joins<W>(c: (String, String, W), a: Seq<char>, b: Seq<char>) -> bool {
    (c.0@ == a && c.1@ == b) || (c.0@ == b && c.1@ == a)
}

/// The connections that do not join `a` and `b`, in their order.
pub open spec fn without_link<W>(conns: Seq<(String, String, W)>, a: Seq<char>, b: Seq<char>) -> Seq<
    (String, String, W),
> {
    conns.filter(|c: (String, String, W)| !joins(c, a, b))
}

/// A connection as the positions of its two rooms and its coupling,
/// when both of its rooms are present.
pub open spec fn resolve_link<V, W>(rooms: Seq<(String, V)>, c: (String, String, W)) -> Option<
    (usize, usize, W),
> {
    match (room_index(rooms, c.0@), room_index(rooms, c.1@)) {
        (Some(i), Some(j)) => Some((i as usize, j as usize, c.2)),
        _ => None,
    }
}

/// The connections whose two rooms are both present, in their order,
/// each as the positions of its rooms and its coupling.
pub open spec fn linked_positions<V, W>(
    rooms: Seq<(String, V)>,
    conns: Seq<(String, String, W)>,
) -> Seq<(usize, usize, W)> {
    conns.filter_map(|c: (String, String, W)| resolve_link(rooms, c))
}

/// Both rooms of connection `c` are rooms of the field.
pub open spec fn both_rooms_present<V, W>(rooms: Seq<(String, V)>, c: (String, String, W)) -> bool {
    room_map(rooms).contains_key(c.0@) && room_map(rooms).contains_key(c.1@)
}

/// How many of `conns` have both of their rooms in the field.
pub open spec fn count_present<V, W>(rooms: Seq<(String, V)>, conns: Seq<(String, String, W)>) -> nat
    decreases conns.len(),
{
    if conns.len() == 0 {
        0
    } else {
        count_present(rooms, conns.drop_last()) + if both_rooms_present(rooms, conns.last()) {
            1nat
        } else {
            0nat
        }
    }
}

/// `p` is the position of the first entry named `name`.
pub open spec fn first_position<V>(rooms: Seq<(String, V)>, name: Seq<char>, p: int) -> bool {
    &&& 0 <= p < rooms.len()
    &&& rooms[p].0@ == name
    &&& forall|m: int| 0 <= m < p ==> #[trigger] rooms[m].0@ != name
}

/// Every connection whose two rooms are both in the field acts on it, and no other does:
/// the active links are exactly as many as those connections, and the connection at
/// position `i` is the link after the links of the connections before it, with the
/// positions of its own two rooms and its own coupling. No condition on where the rooms
/// stand or on how many rooms there are removes a connection.
pub proof fn law_active_links_cover_connections<V, W>(
    rooms: Seq<(String, V)>,
    conns: Seq<(String, String, W)>,
)
    requires
        rooms.len() <= usize::MAX,
    ensures
        linked_positions(rooms, conns).len() == count_present(rooms, conns),
        forall|i: int|
            0 <= i < conns.len() && both_rooms_present(rooms, #[trigger] conns[i]) ==> {
                let r = count_present(rooms, conns.take(i)) as int;
                let l = linked_positions(rooms, conns)[r];
                &&& r < count_present(rooms, conns)
                &&& first_position(rooms, conns[i].0@, l.0 as int)
                &&& first_position(rooms, conns[i].1@, l.1 as int)
                &&& l.2 == conns[i].2
            },
    decreases conns.len(),
{
    if conns.len() > 0 {
        let rest = conns.drop_last();
        let x = conns.last();
        let f = |c: (String, String, W)| resolve_link(rooms, c);
        law_active_links_cover_connections(rooms, rest);
        lemma_room_index(rooms, x.0@);
        lemma_room_index(rooms, x.1@);
        assert(linked_positions(rooms, conns) == linked_positions(rooms, rest) + match f(x) {
            Some(s) => seq![s],
            None => Seq::<(usize, usize, W)>::empty(),
        });
        assert(f(x) is Some <==> both_rooms_present(rooms, x));
        assert forall|i: int|
            0 <= i < conns.len() && both_rooms_present(rooms, #[trigger] conns[i]) implies {
                let r = count_present(rooms, conns.take(i)) as int;
                let l = linked_positions(rooms, conns)[r];
                &&& r < count_present(rooms, conns)
                &&& first_position(rooms, conns[i].0@, l.0 as int)
                &&& first_position(rooms, conns[i].1@, l.1 as int)
                &&& l.2 == conns[i].2
            } by {
            if i == conns.len() - 1 {
                assert(conns.take(i) =~= rest);
            } else {
                assert(conns.take(i) =~= rest.take(i));
                assert(conns[i] == rest[i]);
            }
        }
    }
}

// ---------------------------------------------------------------------------
// The field.
// ---------------------------------------------------------------------------

/// A field over named rooms: each room holds a value of type `V`, and rooms are
/// joined by connections that carry a coupling of type `W`.
#[derive(Debug, Clone)]
pub struct GravityField<V, W> {
    pub vectors: Vec<(String, V)>,
    pub connections: Vec<(String, String, W)>,
}

impl<V, W> GravityField<V, W> {
    /// The rooms of the field, by name.
    pub open spec fn rooms(&self) -> Map<Seq<char>, V> {
        room_map(self.vectors@)
    }

    /// An empty field: no rooms and no connections.
    pub fn new() -> (field: Self)
        ensures
            field.vectors@.len() == 0,
            field.connections@.len() == 0,
            field.rooms() == Map::<Seq<char>, V>::empty(),
            distinct_rooms(field.vectors@),
    {
        let field = GravityField { vectors: Vec::new(), connections: Vec::new() };
        assert(field.rooms() =~= Map::<Seq<char>, V>::empty());
        field
    }

    /// Position in `vectors` of the entry that holds room `name`.
    fn position_of(&self, name: &String) -> (pos: Option<usize>)
        ensures
            pos is Some <==> room_index(self.vectors@, name@) is Some,
            pos matches Some(i) ==> room_index(self.vectors@, name@) == Some(i as int),
    {
        let mut i: usize = 0;
        while i < self.vectors.len()
            invariant
                i <= self.vectors@.len(),
                forall|m: int| 0 <= m < i ==> #[trigger] self.vectors@[m].0@ != name@,
            decreases self.vectors@.len() - i,
        {
            if self.vectors[i].0 == *name {
                proof {
                    lemma_room_index(self.vectors@, name@);
                }
                return Some(i);
            }
            i = i + 1;
        }
        proof {
            lemma_room_index(self.vectors@, name@);
        }
        None
    }

    /// The value of room `room_id`, if the field has that room.
    pub fn get(&self, room_id: &str) -> (found: Option<&V>)
        ensures
            found is Some <==> self.rooms().contains_key(room_id@),
            found matches Some(v) ==> *v == self.rooms()[room_id@],
    {
        let name = room_id.to_string();
        proof {
            lemma_room_index(self.vectors@, room_id@);
        }
        match self.position_of(&name) {
            Some(i) => Some(&self.vectors[i].1),
            None => None,
        }
    }

    /// Sets room `room_id` to `vector`. A room the field already has keeps its place and
    /// takes the new value; a new room is added after all others.
    pub fn set(&mut self, room_id: &str, vector: V)
        ensures
            final(self).rooms() == old(self).rooms().insert(room_id@, vector),
            final(self).connections == old(self).connections,
            distinct_rooms(old(self).vectors@) ==> distinct_rooms(final(self).vectors@),
            room_index(old(self).vectors@, room_id@) matches Some(i) ==> final(self).vectors@
                == old(self).vectors@.update(i, (old(self).vectors@[i].0, vector)),
            room_index(old(self).vectors@, room_id@) is None ==> {
                &&& final(self).vectors@.drop_last() == old(self).vectors@
                &&& final(self).vectors@.len() == old(self).vectors@.len() + 1
                &&& final(self).vectors@.last().0@ == room_id@
                &&& final(self).vectors@.last().1 == vector
            },
    {
        let name = room_id.to_string();
        let ghost before = self.vectors@;
        proof {
            lemma_room_index(before, room_id@);
        }
        match self.position_of(&name) {
            Some(i) => {
                let key = self.vectors[i].0.clone();
                self.vectors.set(i, (key, vector));
                proof {
                    let after = self.vectors@;
                    assert forall|m: int| 0 <= m < after.len() implies #[trigger] after[m].0@
                        == before[m].0@ by {}
                    assert forall|k: Seq<char>| room_index(after, k) == room_index(before, k) by {
                        lemma_find_room_same_names(after, before, k, 0);
                    }
                    assert forall|k: Seq<char>, j: int|
                        #![trigger room_index(before, k), after[j]]
                        room_index(before, k) == Some(j) && k != room_id@ implies after[j]
                        == before[j] by {
                        lemma_room_index(before, k);
                    }
                    assert(room_map(after) =~= room_map(before).insert(room_id@, vector));
                }
            },
            None => {
                self.vectors.push((name, vector));
                proof {
                    let after = self.vectors@;
                    assert(after == before.push((name, vector)));
                    assert forall|k: Seq<char>| #[trigger] room_index(after, k) == match room_index(before, k) {
                        Some(j) => Some(j),
                        None => if k == room_id@ {
                            Some(before.len() as int)
                        } else {
                            None
                        },
                    } by {
                        lemma_find_room_push(before, (name, vector), k, 0);
                    }
                    assert forall|k: Seq<char>, j: int|
                        #![trigger room_index(before, k), after[j]]
                        room_index(before, k) == Some(j) implies after[j] == before[j] by {
                        lemma_room_index(before, k);
                    }
                    assert(room_map(after) =~= room_map(before).insert(room_id@, vector));
                }
            },
        }
    }

    /// Removes every connection that joins `a` and `b`, keeping the others in their order.
    fn remove_links(&mut self, a: &String, b: &String)
        ensures
            final(self).connections@ == without_link(old(self).connections@, a@, b@),
            final(self).vectors == old(self).vectors,
    {
        let ghost orig = self.connections@;
        let ghost keep = |c: (String, String, W)| !joins(c, a@, b@);
        let mut i: usize = 0;
        let ghost mut done: int = 0;
        while i < self.connections.len()
            invariant
                0 <= done <= orig.len(),
                keep == (|c: (String, String, W)| !joins(c, a@, b@)),
                i == orig.take(done).filter(keep).len(),
                self.connections@ == orig.take(done).filter(keep) + orig.skip(done),
                self.vectors == old(self).vectors,
                orig == old(self).connections@,
            decreases self.connections@.len() - i,
        {
            assert(self.connections@[i as int] == orig[done]);
            let hit = {
                let c = &self.connections[i];
                (c.0 == *a && c.1 == *b) || (c.0 == *b && c.1 == *a)
            };
            let ghost prefix = orig.take(done).filter(keep);
            assert(orig.take(done + 1) =~= orig.take(done).push(orig[done]));
            proof {
                orig.take(done).lemma_filter_push(orig[done], keep);
            }
            assert(hit == !keep(orig[done]));
            assert(orig.skip(done).drop_first() =~= orig.skip(done + 1));
            if hit {
                self.connections.remove(i);
                proof {
                    assert(orig.take(done + 1).filter(keep) == prefix);
                    assert(self.connections@ =~= prefix + orig.skip(done + 1));
                }
            } else {
                i = i + 1;
                proof {
                    assert(orig.take(done + 1).filter(keep) == prefix.push(orig[done]));
                    assert(self.connections@ =~= prefix.push(orig[done]) + orig.skip(done + 1));
                }
            }
            proof {
                done = done + 1;
            }
        }
        proof {
            assert(orig.take(done) =~= orig);
            assert(orig.skip(done) =~= Seq::<(String, String, W)>::empty());
            assert(self.connections@ =~= orig.filter(keep));
        }
    }

    /// Joins rooms `room_a` and `room_b` with `coupling`, replacing any connection that
    /// already joins them (in either order). The new connection comes last.
    pub fn connect(&mut self, room_a: &str, room_b: &str, coupling: W)
        ensures
            final(self).connections@.drop_last() == without_link(
                old(self).connections@,
                room_a@,
                room_b@,
            ),
            final(self).connections@.len() >= 1,
            final(self).connections@.last().0@ == room_a@,
            final(self).connections@.last().1@ == room_b@,
            final(self).connections@.last().2 == coupling,
            forall|i: int|
                0 <= i < final(self).connections@.len() - 1 ==> !joins(
                    #[trigger] final(self).connections@[i],
                    room_a@,
                    room_b@,
                ),
            final(self).vectors == old(self).vectors,
    {
        let a = room_a.to_string();
        let b = room_b.to_string();
        self.remove_links(&a, &b);
        let ghost kept = self.connections@;
        self.connections.push((a, b, coupling));
        proof {
            assert(self.connections@.drop_last() =~= kept);
            assert forall|i: int| 0 <= i < kept.len() implies !joins(
                #[trigger] kept[i],
                room_a@,
                room_b@,
            ) by {
                old(self).connections@.lemma_filter_pred(
                    |c: (String, String, W)| !joins(c, room_a@, room_b@),
                    i,
                );
            }
        }
    }

    /// Removes every connection that joins `room_a` and `room_b`, in either order.
    pub fn disconnect(&mut self, room_a: &str, room_b: &str)
        ensures
            final(self).connections@ == without_link(old(self).connections@, room_a@, room_b@),
            final(self).vectors == old(self).vectors,
    {
        let a = room_a.to_string();
        let b = room_b.to_string();
        self.remove_links(&a, &b);
    }
}

impl<V, W: Copy> GravityField<V, W> {
    /// The connections whose two rooms are both present, in their order, each given
    /// as the positions in `vectors` of its first and second room and its coupling.
    /// These are the connections through which rooms influence one another.
    pub fn active_links(&self) -> (links: Vec<(usize, usize, W)>)
        ensures
            links@ == linked_positions(self.vectors@, self.connections@),
            forall|k: int|
                0 <= k < links@.len() ==> (#[trigger] links@[k]).0 < self.vectors@.len()
                    && links@[k].1 < self.vectors@.len(),
            links@.len() == count_present(self.vectors@, self.connections@),
            forall|i: int|
                0 <= i < self.connections@.len() && self.rooms().contains_key(
                    (#[trigger] self.connections@[i]).0@,
                ) && self.rooms().contains_key(self.connections@[i].1@) ==> {
                    let r = count_present(self.vectors@, self.connections@.take(i)) as int;
                    &&& 0 <= r < links@.len()
                    &&& first_position(self.vectors@, self.connections@[i].0@, links@[r].0 as int)
                    &&& first_position(self.vectors@, self.connections@[i].1@, links@[r].1 as int)
                    &&& links@[r].2 == self.connections@[i].2
                },
    {
        let ghost conns = self.connections@;
        let ghost rooms = self.vectors@;
        let ghost resolve = |c: (String, String, W)| resolve_link(rooms, c);
        let mut links: Vec<(usize, usize, W)> = Vec::new();
        let mut k: usize = 0;
        while k < self.connections.len()
            invariant
                k <= conns.len(),
                conns == self.connections@,
                rooms == self.vectors@,
                resolve == (|c: (String, String, W)| resolve_link(rooms, c)),
                links@ == conns.take(k as int).filter_map(resolve),
                forall|m: int|
                    0 <= m < links@.len() ==> (#[trigger] links@[m]).0 < rooms.len()
                        && links@[m].1 < rooms.len(),
            decreases conns.len() - k,
        {
            let c = &self.connections[k];
            let pa = self.position_of(&c.0);
            let pb = self.position_of(&c.1);
            proof {
                conns.lemma_filter_map_take_succ(resolve, k as int);
                lemma_room_index(rooms, c.0@);
                lemma_room_index(rooms, c.1@);
            }
            match (pa, pb) {
                (Some(i), Some(j)) => {
                    links.push((i, j, c.2));
                },
                _ => {},
            }
            k = k + 1;
        }
        let room_count = self.vectors.len();
        proof {
            assert(conns.take(k as int) =~= conns);
            assert(rooms.len() == room_count);
            law_active_links_cover_connections(rooms, conns);
        }
        links
    }
}

impl<V, W> Default for GravityField<V, W> {
    /// An empty field.
    fn default() -> (field: Self)
        ensures
            field.vectors@.len() == 0,
            field.connections@.len() == 0,
    {
        Self::new()
    }
}

// ---------------------------------------------------------------------------
// Laws of connecting and disconnecting.
// ---------------------------------------------------------------------------

/// Disconnecting `a` from `b` removes the same connections as disconnecting `b` from `a`.
pub proof fn law_disconnect_symmetric<W>(
    conns: Seq<(String, String, W)>,
    a: Seq<char>,
    b: Seq<char>,
)
    ensures
        without_link(conns, a, b) == without_link(conns, b, a),
{
    assert((|c: (String, String, W)| !joins(c, a, b)) =~= (|c: (String, String, W)|
        !joins(c, b, a)));
}

/// Disconnecting twice removes no more than disconnecting once.
pub proof fn law_disconnect_idempotent<W>(
    conns: Seq<(String, String, W)>,
    a: Seq<char>,
    b: Seq<char>,
)
    ensures
        without_link(without_link(conns, a, b), a, b) == without_link(conns, a, b),
    decreases conns.len(),
{
    let keep = |c: (String, String, W)| !joins(c, a, b);
    if conns.len() > 0 {
        let rest = conns.drop_last();
        law_disconnect_idempotent(rest, a, b);
        assert(conns =~= rest.push(conns.last()));
        rest.lemma_filter_push(conns.last(), keep);
        if keep(conns.last()) {
            rest.filter(keep).lemma_filter_push(conns.last(), keep);
        }
    }
}

/// Connecting `a` and `b` and then disconnecting them leaves the connections that
/// disconnecting alone leaves: a connection made and then removed leaves no trace.
pub proof fn law_connect_then_disconnect<W>(
    conns: Seq<(String, String, W)>,
    link: (String, String, W),
    a: Seq<char>,
    b: Seq<char>,
)
    requires
        link.0@ == a,
        link.1@ == b,
    ensures
        without_link(without_link(conns, a, b).push(link), a, b) == without_link(conns, a, b),
{
    let keep = |c: (String, String, W)| !joins(c, a, b);
    without_link(conns, a, b).lemma_filter_push(link, keep);
    law_disconnect_idempotent(conns, a, b);
}

} // verus!
