use vstd::prelude::*;
use crate::error::ShapeError;

verus! {

/// One output of a node: the node's id and the slot among its outputs. It is
/// an index, and owns nothing.
#[derive(Clone, Copy, Debug, PartialEq, Eq, Structural, Hash)]
pub struct OutletRef {
    pub node: usize,
    pub slot: usize,
}

/// A node: an operator, the outlets that it reads, and one fact for each of
/// its outputs.
#[derive(Debug, PartialEq, Eq)]
pub struct Node<F, O> {
    pub id: usize,
    pub name: String,
    pub op: O,
    pub inputs: Vec<OutletRef>,
    pub outputs: Vec<F>,
}

/// A graph owns its nodes in the order in which they were made. The id of a
/// node is its place in `nodes`; the place of a removed node stays empty, so
/// no id is given twice.
#[derive(Debug, PartialEq, Eq)]
pub struct Graph<F, O> {
    pub nodes: Vec<Option<Node<F, O>>>,
    pub inputs: Vec<OutletRef>,
    pub outputs: Vec<OutletRef>,
}

/// Whether one of the references names the node `id`.
pub open spec fn refers_to(refs: Seq<OutletRef>, id: usize) -> bool {
    exists|k: int| 0 <= k < refs.len() && (#[trigger] refs[k]).node == id
}

pub fn any_refers_to(refs: &Vec<OutletRef>, id: usize) -> (r: bool)
    ensures
        r == refers_to(refs@, id),
{
    let mut k: usize = 0;
    while k < refs.len()
        invariant
            k <= refs@.len(),
            forall|j: int| 0 <= j < k ==> (#[trigger] refs@[j]).node != id,
        decreases refs@.len() - k,
    {
        if refs[k].node == id {
            return true;
        }
        k += 1;
    }
    false
}

/// The references with each node's id replaced by the id at its place in
/// `ids`.
pub fn map_refs(refs: &Vec<OutletRef>, ids: &Vec<usize>) -> (r: Vec<OutletRef>)
    requires
        forall|k: int| 0 <= k < refs@.len() ==> (#[trigger] refs@[k]).node < ids@.len(),
    ensures
        r@.len() == refs@.len(),
        forall|k: int|
            0 <= k < refs@.len() ==> #[trigger] r@[k] == (OutletRef {
                node: ids@[refs@[k].node as int],
                slot: refs@[k].slot,
            }),
{
    let mut out: Vec<OutletRef> = Vec::new();
    let mut k: usize = 0;
    while k < refs.len()
        invariant
            k <= refs@.len(),
            out@.len() == k,
            forall|j: int| 0 <= j < refs@.len() ==> (#[trigger] refs@[j]).node < ids@.len(),
            forall|j: int|
                0 <= j < k ==> #[trigger] out@[j] == (OutletRef {
                    node: ids@[refs@[j].node as int],
                    slot: refs@[j].slot,
                }),
        decreases refs@.len() - k,
    {
        let r = refs[k];
        out.push(OutletRef { node: ids[r.node], slot: r.slot });
        k += 1;
    }
    out
}

impl<F, O> Graph<F, O> {
    /// Whether the graph has a node with this id.
    pub open spec fn is_live(&self, id: usize) -> bool {
        id < self.nodes@.len() && self.nodes@[id as int] is Some
    }

    /// Whether the reference names an output of a node of the graph.
    pub open spec fn holds(&self, r: OutletRef) -> bool {
        self.is_live(r.node) && r.slot < self.nodes@[r.node as int]->Some_0.outputs@.len()
    }

    pub open spec fn all_held(&self, refs: Seq<OutletRef>) -> bool {
        forall|k: int| 0 <= k < refs.len() ==> self.holds(#[trigger] refs[k])
    }

    /// No reference dangles: every node stands at the place of its id, and
    /// every input of a node and every designated outlet names an output of a
    /// node of the graph.
    pub open spec fn wf(&self) -> bool {
        &&& forall|i: int|
            0 <= i < self.nodes@.len() && (#[trigger] self.nodes@[i]) is Some ==> {
                &&& self.nodes@[i]->Some_0.id == i
                &&& self.all_held(self.nodes@[i]->Some_0.inputs@)
            }
        &&& self.all_held(self.inputs@)
        &&& self.all_held(self.outputs@)
    }

    /// Whether a node or a designated outlet refers to the node `id`.
    pub open spec fn has_dependents(&self, id: usize) -> bool {
        ||| exists|i: int|
            0 <= i < self.nodes@.len() && (#[trigger] self.nodes@[i]) is Some && refers_to(
                self.nodes@[i]->Some_0.inputs@,
                id,
            )
        ||| refers_to(self.inputs@, id)
        ||| refers_to(self.outputs@, id)
    }

    pub fn new() -> (r: Self)
        ensures
            r.wf(),
            r.nodes@.len() == 0,
            r.inputs@.len() == 0,
            r.outputs@.len() == 0,
    {
        Graph { nodes: Vec::new(), inputs: Vec::new(), outputs: Vec::new() }
    }

    /// The number of nodes whose id is below `upto`: the id that renumbering
    /// gives to the node `upto`.
    pub open spec fn live_before(&self, upto: int) -> int
        decreases upto,
    {
        if upto <= 0 || upto > self.nodes@.len() {
            0
        } else {
            self.live_before(upto - 1) + (if self.nodes@[upto - 1] is Some {
                1int
            } else {
                0int
            })
        }
    }

    /// A reference as it reads after renumbering.
    pub open spec fn renumbered(&self, r: OutletRef) -> OutletRef {
        OutletRef { node: self.live_before(r.node as int) as usize, slot: r.slot }
    }

    pub open spec fn renumbered_all(&self, refs: Seq<OutletRef>) -> Seq<OutletRef> {
        Seq::new(refs.len(), |k: int| self.renumbered(refs[k]))
    }

    pub proof fn lemma_live_before_bounds(&self, i: int)
        requires
            0 <= i <= self.nodes@.len(),
        ensures
            0 <= self.live_before(i) <= i,
        decreases i,
    {
        if i > 0 {
            self.lemma_live_before_bounds(i - 1);
        }
    }

    /// Renumbering gives a node a smaller id than whatever comes after it.
    pub proof fn lemma_live_before_grows(&self, i: int, j: int)
        requires
            0 <= i < j <= self.nodes@.len(),
            self.nodes@[i] is Some,
        ensures
            0 <= self.live_before(i) < self.live_before(j),
        decreases j - i,
    {
        self.lemma_live_before_bounds(i);
        if i + 1 < j {
            self.lemma_live_before_grows(i, j - 1);
        }
    }

    /// The id that renumbering gives to each place, and after them the number
    /// of nodes.
    pub fn new_ids(&self) -> (ids: Vec<usize>)
        ensures
            ids@.len() == self.nodes@.len() + 1,
            forall|i: int| 0 <= i <= self.nodes@.len() ==> #[trigger] ids@[i] == self.live_before(i),
    {
        let mut ids: Vec<usize> = Vec::new();
        ids.push(0);
        let mut count: usize = 0;
        let mut i: usize = 0;
        while i < self.nodes.len()
            invariant
                i <= self.nodes@.len(),
                ids@.len() == i + 1,
                count == self.live_before(i as int),
                count <= i,
                forall|j: int| 0 <= j <= i ==> #[trigger] ids@[j] == self.live_before(j),
            decreases self.nodes@.len() - i,
        {
            if self.nodes[i].is_some() {
                count += 1;
            }
            ids.push(count);
            i += 1;
        }
        ids
    }

    /// Whether `m` is the node at place `j` as it reads after renumbering: the
    /// new id, the references rewritten, all else as it was.
    pub open spec fn is_image(&self, m: Node<F, O>, j: int) -> bool {
        &&& 0 <= j < self.nodes@.len()
        &&& self.nodes@[j] is Some
        &&& m.id == self.live_before(j)
        &&& m.name == self.nodes@[j]->Some_0.name
        &&& m.op == self.nodes@[j]->Some_0.op
        &&& m.outputs == self.nodes@[j]->Some_0.outputs
        &&& m.inputs@ == self.renumbered_all(self.nodes@[j]->Some_0.inputs@)
    }

    /// The place that each node of `after` had in `self`.
    pub open spec fn images(&self, after: Self, origin: Seq<int>) -> bool {
        &&& origin.len() == after.nodes@.len()
        &&& forall|x: int|
            0 <= x < after.nodes@.len() ==> {
                &&& (#[trigger] after.nodes@[x]) is Some
                &&& self.is_image(after.nodes@[x]->Some_0, origin[x])
                &&& self.live_before(origin[x]) == x
            }
    }

    /// The node at place `j` stands after renumbering at its new id.
    pub proof fn lemma_image_place(&self, after: Self, origin: Seq<int>, j: int)
        requires
            self.images(after, origin),
            after.nodes@.len() == self.live_before(self.nodes@.len() as int),
            0 <= j < self.nodes@.len(),
            self.nodes@[j] is Some,
        ensures
            0 <= self.live_before(j) < after.nodes@.len(),
            origin[self.live_before(j)] == j,
            self.is_image(after.nodes@[self.live_before(j)]->Some_0, j),
    {
        self.lemma_live_before_grows(j, self.nodes@.len() as int);
        let x = self.live_before(j);
        assert(after.nodes@[x] is Some);
        let o = origin[x];
        if o < j {
            self.lemma_live_before_grows(o, j);
        } else if j < o {
            self.lemma_live_before_grows(j, o);
        }
    }

    /// A reference that held before renumbering holds after it, rewritten.
    pub proof fn lemma_renumbered_holds(&self, after: Self, origin: Seq<int>, r: OutletRef)
        requires
            self.images(after, origin),
            after.nodes@.len() == self.live_before(self.nodes@.len() as int),
            self.holds(r),
        ensures
            after.holds(self.renumbered(r)),
    {
        self.lemma_image_place(after, origin, r.node as int);
        self.lemma_live_before_bounds(r.node as int);
    }

    /// Renumbering leaves no reference dangling.
    pub proof fn lemma_renumbered_wf(&self, after: Self, origin: Seq<int>)
        requires
            self.wf(),
            self.images(after, origin),
            after.nodes@.len() == self.live_before(self.nodes@.len() as int),
            after.inputs@ == self.renumbered_all(self.inputs@),
            after.outputs@ == self.renumbered_all(self.outputs@),
        ensures
            after.wf(),
    {
        assert forall|x: int| 0 <= x < after.nodes@.len() && (#[trigger] after.nodes@[x]) is Some implies {
            &&& after.nodes@[x]->Some_0.id == x
            &&& after.all_held(after.nodes@[x]->Some_0.inputs@)
        } by {
            let j = origin[x];
            let n = self.nodes@[j]->Some_0;
            let m = after.nodes@[x]->Some_0;
            assert(self.all_held(n.inputs@));
            assert forall|k: int| 0 <= k < m.inputs@.len() implies after.holds(
                #[trigger] m.inputs@[k],
            ) by {
                assert(self.holds(n.inputs@[k]));
                self.lemma_renumbered_holds(after, origin, n.inputs@[k]);
            }
        }
        assert forall|k: int| 0 <= k < after.inputs@.len() implies after.holds(
            #[trigger] after.inputs@[k],
        ) by {
            assert(self.holds(self.inputs@[k]));
            self.lemma_renumbered_holds(after, origin, self.inputs@[k]);
        }
        assert forall|k: int| 0 <= k < after.outputs@.len() implies after.holds(
            #[trigger] after.outputs@[k],
        ) by {
            assert(self.holds(self.outputs@[k]));
            self.lemma_renumbered_holds(after, origin, self.outputs@[k]);
        }
    }

    /// Gives the nodes the ids 0, 1, 2, .. in their order, so that no place
    /// stays empty, and rewrites every reference to the new ids. Names,
    /// operators, output facts and the order of the nodes stay.
    pub fn renumber(&mut self)
        requires
            old(self).wf(),
        ensures
            final(self).wf(),
            final(self).nodes@.len() == old(self).live_before(old(self).nodes@.len() as int),
            forall|x: int|
                0 <= x < final(self).nodes@.len() ==> (#[trigger] final(self).nodes@[x]) is Some,
            forall|i: int|
                0 <= i < old(self).nodes@.len() && (#[trigger] old(self).nodes@[i]) is Some ==> {
                    &&& 0 <= old(self).live_before(i) < final(self).nodes@.len()
                    &&& old(self).is_image(final(self).nodes@[old(self).live_before(i)]->Some_0, i)
                },
            final(self).inputs@ == old(self).renumbered_all(old(self).inputs@),
            final(self).outputs@ == old(self).renumbered_all(old(self).outputs@),
    {
        let ghost before = *self;
        let ids = self.new_ids();
        let count: usize = self.nodes.len();
        proof {
            assert forall|k: int| 0 <= k < before.inputs@.len() implies (
            #[trigger] before.inputs@[k]).node < ids@.len() by {
                assert(before.holds(before.inputs@[k]));
            }
            assert forall|k: int| 0 <= k < before.outputs@.len() implies (
            #[trigger] before.outputs@[k]).node < ids@.len() by {
                assert(before.holds(before.outputs@[k]));
            }
        }
        let inputs = map_refs(&self.inputs, &ids);
        let outputs = map_refs(&self.outputs, &ids);
        proof {
            assert forall|k: int| 0 <= k < inputs@.len() implies inputs@[k] == before.renumbered(
                before.inputs@[k],
            ) by {
                assert(before.holds(before.inputs@[k]));
            }
            assert(inputs@ =~= before.renumbered_all(before.inputs@));
            assert forall|k: int| 0 <= k < outputs@.len() implies outputs@[k] == before.renumbered(
                before.outputs@[k],
            ) by {
                assert(before.holds(before.outputs@[k]));
            }
            assert(outputs@ =~= before.renumbered_all(before.outputs@));
        }
        let mut nodes: Vec<Option<Node<F, O>>> = Vec::new();
        let ghost mut origin: Seq<int> = Seq::empty();
        let mut i: usize = 0;
        while i < count
            invariant
                i <= count,
                before.wf(),
                before.nodes@.len() == count,
                ids@.len() == count + 1,
                forall|j: int| 0 <= j <= count ==> #[trigger] ids@[j] == before.live_before(j),
                self.nodes@.len() == count,
                forall|j: int| i <= j < count ==> self.nodes@[j] == before.nodes@[j],
                nodes@.len() == before.live_before(i as int),
                origin.len() == nodes@.len(),
                forall|x: int|
                    0 <= x < nodes@.len() ==> {
                        &&& (#[trigger] nodes@[x]) is Some
                        &&& before.is_image(nodes@[x]->Some_0, origin[x])
                        &&& before.live_before(origin[x]) == x
                    },
            decreases count - i,
        {
            self.nodes.push(None);
            let taken = self.nodes.swap_remove(i);
            let ghost done = nodes@;
            let ghost origin0 = origin;
            proof {
                before.lemma_live_before_bounds(i as int);
                assert(taken == before.nodes@[i as int]);
            }
            match taken {
                Some(n) => {
                    proof {
                        assert(before.all_held(n.inputs@));
                        assert forall|k: int| 0 <= k < n.inputs@.len() implies (
                        #[trigger] n.inputs@[k]).node < ids@.len() by {
                            assert(before.holds(n.inputs@[k]));
                        }
                    }
                    let wired = map_refs(&n.inputs, &ids);
                    proof {
                        assert forall|k: int| 0 <= k < wired@.len() implies wired@[k]
                            == before.renumbered(n.inputs@[k]) by {
                            assert(before.holds(n.inputs@[k]));
                        }
                        assert(wired@ =~= before.renumbered_all(n.inputs@));
                        origin = origin.push(i as int);
                    }
                    nodes.push(
                        Some(Node { id: ids[i], name: n.name, op: n.op, inputs: wired, outputs: n.outputs }),
                    );
                    proof {
                        assert forall|x: int| 0 <= x < nodes@.len() implies {
                            &&& (#[trigger] nodes@[x]) is Some
                            &&& before.is_image(nodes@[x]->Some_0, origin[x])
                            &&& before.live_before(origin[x]) == x
                        } by {
                            if x < done.len() {
                                assert(nodes@[x] == done[x]);
                                assert(origin[x] == origin0[x]);
                            }
                        }
                    }
                },
                None => {},
            }
            i += 1;
        }
        self.nodes = nodes;
        self.inputs = inputs;
        self.outputs = outputs;
        proof {
            assert(before.images(*self, origin));
            before.lemma_renumbered_wf(*self, origin);
            assert forall|i: int|
                0 <= i < before.nodes@.len() && (#[trigger] before.nodes@[i]) is Some implies {
                &&& 0 <= before.live_before(i) < self.nodes@.len()
                &&& before.is_image(self.nodes@[before.live_before(i)]->Some_0, i)
            } by {
                before.lemma_image_place(*self, origin, i);
            }
        }
    }

    /// The number of ids given so far, removed nodes included.
    pub fn id_count(&self) -> (r: usize)
        ensures
            r == self.nodes@.len(),
    {
        self.nodes.len()
    }

    pub fn node(&self, id: usize) -> (r: Option<&Node<F, O>>)
        ensures
            r is Some <==> self.is_live(id),
            r matches Some(n) ==> *n == self.nodes@[id as int]->Some_0,
    {
        if id < self.nodes.len() {
            self.nodes[id].as_ref()
        } else {
            None
        }
    }

    pub fn has_outlet(&self, r: OutletRef) -> (b: bool)
        ensures
            b == self.holds(r),
    {
        match self.node(r.node) {
            Some(n) => r.slot < n.outputs.len(),
            None => false,
        }
    }

    /// The fact of an outlet, found by the two indices.
    pub fn outlet_fact(&self, r: OutletRef) -> (f: Option<&F>)
        ensures
            f is Some <==> self.holds(r),
            f matches Some(x) ==> *x == self.nodes@[r.node as int]->Some_0.outputs@[r.slot as int],
    {
        match self.node(r.node) {
            Some(n) => if r.slot < n.outputs.len() {
                Some(&n.outputs[r.slot])
            } else {
                None
            },
            None => None,
        }
    }

    pub fn has_outlets(&self, refs: &Vec<OutletRef>) -> (b: bool)
        ensures
            b == self.all_held(refs@),
    {
        let mut k: usize = 0;
        while k < refs.len()
            invariant
                k <= refs@.len(),
                forall|j: int| 0 <= j < k ==> self.holds(#[trigger] refs@[j]),
            decreases refs@.len() - k,
        {
            if !self.has_outlet(refs[k]) {
                return false;
            }
            k += 1;
        }
        true
    }

    /// Adds a node that reads the given outlets and gives its id. Fails with
    /// `DanglingReference`, and changes nothing, exactly when one of the
    /// outlets is none of the graph.
    pub fn add_node(&mut self, name: String, op: O, inputs: Vec<OutletRef>, outputs: Vec<F>) -> (r:
        Result<usize, ShapeError>)
        requires
            old(self).wf(),
        ensures
            final(self).wf(),
            match r {
                Ok(id) => {
                    &&& old(self).all_held(inputs@)
                    &&& id == old(self).nodes@.len()
                    &&& final(self).nodes@ == old(self).nodes@.push(
                        Some(Node { id, name, op, inputs, outputs }),
                    )
                    &&& final(self).inputs == old(self).inputs
                    &&& final(self).outputs == old(self).outputs
                },
                Err(e) => {
                    &&& e == ShapeError::DanglingReference
                    &&& !old(self).all_held(inputs@)
                    &&& *final(self) == *old(self)
                },
            },
    {
        if !self.has_outlets(&inputs) {
            return Err(ShapeError::DanglingReference);
        }
        let id = self.nodes.len();
        let ghost before = *self;
        self.nodes.push(Some(Node { id, name, op, inputs, outputs }));
        proof {
            assert forall|r: OutletRef| before.holds(r) implies self.holds(r) by {
                assert(self.nodes@[r.node as int] == before.nodes@[r.node as int]);
            }
            assert forall|i: int|
                0 <= i < self.nodes@.len() && (#[trigger] self.nodes@[i]) is Some implies {
                &&& self.nodes@[i]->Some_0.id == i
                &&& self.all_held(self.nodes@[i]->Some_0.inputs@)
            } by {
                if i < before.nodes@.len() {
                    assert(self.nodes@[i] == before.nodes@[i]);
                    assert(before.all_held(before.nodes@[i]->Some_0.inputs@));
                }
            }
        }
        Ok(id)
    }

    /// Adds a node and gives the references to its outputs, in order.
    pub fn wire_node(&mut self, name: String, op: O, inputs: Vec<OutletRef>, outputs: Vec<F>) -> (r:
        Result<Vec<OutletRef>, ShapeError>)
        requires
            old(self).wf(),
        ensures
            final(self).wf(),
            match r {
                Ok(outlets) => {
                    &&& old(self).all_held(inputs@)
                    &&& final(self).nodes@ == old(self).nodes@.push(
                        Some(Node { id: old(self).nodes@.len() as usize, name, op, inputs, outputs }),
                    )
                    &&& final(self).inputs == old(self).inputs
                    &&& final(self).outputs == old(self).outputs
                    &&& outlets@.len() == outputs@.len()
                    &&& forall|k: int|
                        0 <= k < outlets@.len() ==> #[trigger] outlets@[k] == (OutletRef {
                            node: old(self).nodes@.len() as usize,
                            slot: k as usize,
                        })
                    &&& final(self).all_held(outlets@)
                },
                Err(e) => {
                    &&& e == ShapeError::DanglingReference
                    &&& !old(self).all_held(inputs@)
                    &&& *final(self) == *old(self)
                },
            },
    {
        let arity = outputs.len();
        let id = match self.add_node(name, op, inputs, outputs) {
            Ok(id) => id,
            Err(e) => {
                return Err(e);
            },
        };
        let mut outlets: Vec<OutletRef> = Vec::new();
        let mut k: usize = 0;
        while k < arity
            invariant
                k <= arity,
                outlets@.len() == k,
                forall|j: int|
                    0 <= j < k ==> #[trigger] outlets@[j] == (OutletRef { node: id, slot: j as usize }),
            decreases arity - k,
        {
            outlets.push(OutletRef { node: id, slot: k });
            k += 1;
        }
        Ok(outlets)
    }

    /// Whether a node or a designated outlet refers to the node `id`.
    pub fn is_used(&self, id: usize) -> (r: bool)
        ensures
            r == self.has_dependents(id),
    {
        if any_refers_to(&self.inputs, id) || any_refers_to(&self.outputs, id) {
            return true;
        }
        let mut i: usize = 0;
        while i < self.nodes.len()
            invariant
                i <= self.nodes@.len(),
                !refers_to(self.inputs@, id),
                !refers_to(self.outputs@, id),
                forall|j: int|
                    0 <= j < i && (#[trigger] self.nodes@[j]) is Some ==> !refers_to(
                        self.nodes@[j]->Some_0.inputs@,
                        id,
                    ),
            decreases self.nodes@.len() - i,
        {
            match &self.nodes[i] {
                Some(n) => {
                    if any_refers_to(&n.inputs, id) {
                        return true;
                    }
                },
                None => {},
            }
            i += 1;
        }
        false
    }

    /// Removes a node. Fails with `DanglingReference`, and changes nothing,
    /// exactly when the graph has no such node or something still refers to
    /// it.
    pub fn remove_node(&mut self, id: usize) -> (r: Result<(), ShapeError>)
        requires
            old(self).wf(),
        ensures
            final(self).wf(),
            match r {
                Ok(_) => {
                    &&& old(self).is_live(id)
                    &&& !old(self).has_dependents(id)
                    &&& final(self).nodes@ == old(self).nodes@.update(id as int, None)
                    &&& final(self).inputs == old(self).inputs
                    &&& final(self).outputs == old(self).outputs
                },
                Err(e) => {
                    &&& e == ShapeError::DanglingReference
                    &&& !old(self).is_live(id) || old(self).has_dependents(id)
                    &&& *final(self) == *old(self)
                },
            },
    {
        if self.node(id).is_none() || self.is_used(id) {
            return Err(ShapeError::DanglingReference);
        }
        let ghost before = *self;
        self.nodes.set(id, None);
        proof {
            assert forall|refs: Seq<OutletRef>|
                before.all_held(refs) && !refers_to(refs, id) implies self.all_held(refs) by {
                assert forall|k: int| 0 <= k < refs.len() implies self.holds(#[trigger] refs[k]) by {
                    assert(before.holds(refs[k]));
                    assert(refs[k].node != id);
                }
            }
            assert forall|i: int|
                0 <= i < self.nodes@.len() && (#[trigger] self.nodes@[i]) is Some implies {
                &&& self.nodes@[i]->Some_0.id == i
                &&& self.all_held(self.nodes@[i]->Some_0.inputs@)
            } by {
                assert(before.nodes@[i] is Some);
                assert(before.all_held(before.nodes@[i]->Some_0.inputs@));
                assert(!refers_to(before.nodes@[i]->Some_0.inputs@, id));
            }
        }
        Ok(())
    }

    /// Gives a node another name. Fails with `DanglingReference`, and changes
    /// nothing, exactly when the graph has no such node.
    pub fn rename(&mut self, id: usize, name: String) -> (r: Result<(), ShapeError>)
        requires
            old(self).wf(),
        ensures
            final(self).wf(),
            match r {
                Ok(_) => {
                    &&& old(self).is_live(id)
                    &&& final(self).nodes@ == old(self).nodes@.update(
                        id as int,
                        Some(
                            Node {
                                id: old(self).nodes@[id as int]->Some_0.id,
                                name,
                                op: old(self).nodes@[id as int]->Some_0.op,
                                inputs: old(self).nodes@[id as int]->Some_0.inputs,
                                outputs: old(self).nodes@[id as int]->Some_0.outputs,
                            },
                        ),
                    )
                    &&& final(self).inputs == old(self).inputs
                    &&& final(self).outputs == old(self).outputs
                },
                Err(e) => {
                    &&& e == ShapeError::DanglingReference
                    &&& !old(self).is_live(id)
                    &&& *final(self) == *old(self)
                },
            },
    {
        if self.node(id).is_none() {
            return Err(ShapeError::DanglingReference);
        }
        let ghost before = *self;
        self.nodes.push(None);
        let taken = self.nodes.swap_remove(id);
        match taken {
            Some(n) => {
                self.nodes.set(
                    id,
                    Some(Node { id: n.id, name, op: n.op, inputs: n.inputs, outputs: n.outputs }),
                );
            },
            None => {
                assert(false);
            },
        }
        proof {
            assert(self.nodes@ =~= before.nodes@.update(id as int, self.nodes@[id as int]));
            assert forall|r: OutletRef| before.holds(r) implies self.holds(r) by {
                if r.node != id {
                    assert(self.nodes@[r.node as int] == before.nodes@[r.node as int]);
                }
            }
            assert forall|i: int|
                0 <= i < self.nodes@.len() && (#[trigger] self.nodes@[i]) is Some implies {
                &&& self.nodes@[i]->Some_0.id == i
                &&& self.all_held(self.nodes@[i]->Some_0.inputs@)
            } by {
                assert(before.nodes@[i] is Some);
                assert(before.all_held(before.nodes@[i]->Some_0.inputs@));
                assert(self.nodes@[i]->Some_0.inputs@ == before.nodes@[i]->Some_0.inputs@);
            }
        }
        Ok(())
    }

    /// The id of the first node of this name, if there is one.
    pub fn node_by_name(&self, name: &String) -> (r: Option<usize>)
        ensures
            match r {
                Some(id) => {
                    &&& self.is_live(id)
                    &&& self.nodes@[id as int]->Some_0.name@ == name@
                    &&& forall|j: int|
                        0 <= j < id && (#[trigger] self.nodes@[j]) is Some
                            ==> self.nodes@[j]->Some_0.name@ != name@
                },
                None => forall|j: int|
                    0 <= j < self.nodes@.len() && (#[trigger] self.nodes@[j]) is Some
                        ==> self.nodes@[j]->Some_0.name@ != name@,
            },
    {
        let mut i: usize = 0;
        while i < self.nodes.len()
            invariant
                i <= self.nodes@.len(),
                forall|j: int|
                    0 <= j < i && (#[trigger] self.nodes@[j]) is Some
                        ==> self.nodes@[j]->Some_0.name@ != name@,
            decreases self.nodes@.len() - i,
        {
            match &self.nodes[i] {
                Some(n) => {
                    if n.name == *name {
                        return Some(i);
                    }
                },
                None => {},
            }
            i += 1;
        }
        None
    }

    /// Designates the outputs of the graph. Fails with `DanglingReference`, and
    /// changes nothing, exactly when one of the outlets is none of the graph.
    pub fn set_outputs(&mut self, outlets: Vec<OutletRef>) -> (r: Result<(), ShapeError>)
        requires
            old(self).wf(),
        ensures
            final(self).wf(),
            match r {
                Ok(_) => {
                    &&& old(self).all_held(outlets@)
                    &&& final(self).outputs == outlets
                    &&& final(self).nodes == old(self).nodes
                    &&& final(self).inputs == old(self).inputs
                },
                Err(e) => {
                    &&& e == ShapeError::DanglingReference
                    &&& !old(self).all_held(outlets@)
                    &&& *final(self) == *old(self)
                },
            },
    {
        if !self.has_outlets(&outlets) {
            return Err(ShapeError::DanglingReference);
        }
        self.outputs = outlets;
        Ok(())
    }

    /// Designates the inputs of the graph, as `set_outputs` does the outputs.
    pub fn set_inputs(&mut self, outlets: Vec<OutletRef>) -> (r: Result<(), ShapeError>)
        requires
            old(self).wf(),
        ensures
            final(self).wf(),
            match r {
                Ok(_) => {
                    &&& old(self).all_held(outlets@)
                    &&& final(self).inputs == outlets
                    &&& final(self).nodes == old(self).nodes
                    &&& final(self).outputs == old(self).outputs
                },
                Err(e) => {
                    &&& e == ShapeError::DanglingReference
                    &&& !old(self).all_held(outlets@)
                    &&& *final(self) == *old(self)
                },
            },
    {
        if !self.has_outlets(&outlets) {
            return Err(ShapeError::DanglingReference);
        }
        self.inputs = outlets;
        Ok(())
    }
}

} // verus!
