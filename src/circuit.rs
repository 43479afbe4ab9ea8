//! A tree of electrical nodes: generators feed switches, switches feed
//! lights. A light is on when the node it hangs from is on.
use vstd::prelude::*;

verus! {

pub const NODE_NOT_FOUND: &'static str = "node not found";

pub const NOT_A_LIGHT: &'static str = "not a light";

pub const NO_PARENT: &'static str = "no parent switch";

pub const PARENT_NOT_SWITCH: &'static str = "parent is not a switch or generator";

/// What a node does; generators and switches carry their on/off state.
#[derive(Clone, Copy, Debug, PartialEq, Eq, Structural)]
pub enum NodeFunction {
    Generator(bool),
    Switch(bool),
    Light,
}

/// One node of a circuit; its links are positions in the tree that holds it.
pub struct Node {
    name: String,
    function: NodeFunction,
    parent: Option<usize>,
    outs: Vec<usize>,
}

impl Node {
    pub closed spec fn name_spec(&self) -> Seq<char> {
        self.name@
    }

    pub closed spec fn function_spec(&self) -> NodeFunction {
        self.function
    }

    pub closed spec fn parent_spec(&self) -> Option<usize> {
        self.parent
    }

    pub closed spec fn outs_spec(&self) -> Seq<usize> {
        self.outs@
    }

    /// A node that is not linked yet.
    pub fn new(name: &str, function: NodeFunction) -> (r: Node)
        ensures
            r.name_spec() == name@,
            r.function_spec() == function,
            r.parent_spec() is None,
            r.outs_spec() == Seq::<usize>::empty(),
    {
        Node { name: name.to_owned(), function, parent: None, outs: Vec::new() }
    }

    pub fn function(&self) -> (r: NodeFunction)
        ensures
            r == self.function_spec(),
    {
        self.function
    }

    /// Flips a generator or a switch; a light cannot be switched.
    pub fn switch(&mut self) -> (r: Result<(), ()>)
        ensures
            r is Ok <==> old(self).function_spec() != NodeFunction::Light,
            final(self).function_spec() == match old(self).function_spec() {
                NodeFunction::Generator(s) => NodeFunction::Generator(!s),
                NodeFunction::Switch(s) => NodeFunction::Switch(!s),
                NodeFunction::Light => NodeFunction::Light,
            },
            final(self).name_spec() == old(self).name_spec(),
            final(self).parent_spec() == old(self).parent_spec(),
            final(self).outs_spec() == old(self).outs_spec(),
    {
        match self.function {
            NodeFunction::Generator(status) => {
                self.function = NodeFunction::Generator(!status);
                Ok(())
            },
            NodeFunction::Switch(status) => {
                self.function = NodeFunction::Switch(!status);
                Ok(())
            },
            NodeFunction::Light => Err(()),
        }
    }
}

/// The position of the node named `name` that was added last, if any.
pub open spec fn find_spec(nodes: Seq<Node>, name: Seq<char>) -> Option<int>
    decreases nodes.len(),
{
    if nodes.len() == 0 {
        None
    } else if nodes.last().name_spec() == name {
        Some(nodes.len() - 1)
    } else {
        find_spec(nodes.drop_last(), name)
    }
}

/// A generator or switch turned on.
pub open spec fn switched_on(f: NodeFunction) -> NodeFunction {
    match f {
        NodeFunction::Generator(_) => NodeFunction::Generator(true),
        NodeFunction::Switch(_) => NodeFunction::Switch(true),
        NodeFunction::Light => NodeFunction::Light,
    }
}

/// The name `-`, which stands for "no parent": the node becomes the root.
pub open spec fn is_root_name(name: Seq<char>) -> bool {
    name == seq!['-']
}

pub struct CircuitTree {
    root: Option<usize>,
    nodes: Vec<Node>,
}

impl CircuitTree {
    /// The nodes, in the order they were added.
    pub closed spec fn nodes_spec(&self) -> Seq<Node> {
        self.nodes@
    }

    pub closed spec fn root_spec(&self) -> Option<usize> {
        self.root
    }

    /// Every link points at a node of the tree, and no node feeds more than
    /// two others.
    pub open spec fn wf(&self) -> bool {
        &&& self.root_spec() matches Some(r) ==> (r as int) < self.nodes_spec().len()
        &&& forall|i: int|
            0 <= i < self.nodes_spec().len() ==> {
                let n = #[trigger] self.nodes_spec()[i];
                &&& n.parent_spec() matches Some(p) ==> (p as int) < self.nodes_spec().len()
                &&& n.outs_spec().len() <= 2
                &&& forall|k: int|
                    0 <= k < n.outs_spec().len() ==> (n.outs_spec()[k] as int)
                        < self.nodes_spec().len()
            }
    }

    /// The state of the light `name` as `light_status` reports it.
    pub open spec fn status_spec(&self, name: Seq<char>) -> Result<bool, Seq<char>> {
        match find_spec(self.nodes_spec(), name) {
            None => Err(NODE_NOT_FOUND@),
            Some(i) => {
                let n = self.nodes_spec()[i];
                if n.function_spec() != NodeFunction::Light {
                    Err(NOT_A_LIGHT@)
                } else {
                    match n.parent_spec() {
                        None => Err(NO_PARENT@),
                        Some(p) => match self.nodes_spec()[p as int].function_spec() {
                            NodeFunction::Generator(s) => Ok(s),
                            NodeFunction::Switch(s) => Ok(s),
                            NodeFunction::Light => Err(PARENT_NOT_SWITCH@),
                        },
                    }
                }
            },
        }
    }

    pub fn new() -> (r: CircuitTree)
        ensures
            r.wf(),
            r.nodes_spec() == Seq::<Node>::empty(),
            r.root_spec() is None,
    {
        CircuitTree { root: None, nodes: Vec::new() }
    }

    fn find(&self, name: &str) -> (r: Option<usize>)
        ensures
            r matches Some(i) ==> find_spec(self.nodes_spec(), name@) == Some(i as int) && i
                < self.nodes_spec().len(),
            r is None ==> find_spec(self.nodes_spec(), name@) is None,
    {
        let mut i = self.nodes.len();
        assert(self.nodes@.subrange(0, i as int) =~= self.nodes@);
        while i > 0
            invariant
                i <= self.nodes@.len(),
                find_spec(self.nodes@, name@) == find_spec(self.nodes@.subrange(0, i as int), name@),
            decreases i,
        {
            let owned = name.to_owned();
            assert(self.nodes@.subrange(0, i as int).drop_last() =~= self.nodes@.subrange(
                0,
                i - 1,
            ));
            if self.nodes[i - 1].name == owned {
                return Some(i - 1);
            }
            i = i - 1;
        }
        assert(self.nodes@.subrange(0, 0) =~= Seq::<Node>::empty());
        None
    }

    /// The node named `name` (the one added last, if several share it).
    pub fn get(&self, name: &str) -> (r: Option<&Node>)
        ensures
            r is Some <==> find_spec(self.nodes_spec(), name@) is Some,
            r matches Some(n) ==> *n == self.nodes_spec()[find_spec(self.nodes_spec(), name@)->0],
    {
        match self.find(name) {
            Some(i) => Some(&self.nodes[i]),
            None => None,
        }
    }

    /// Whether `name` can take `node` under it: it is `-` (the node becomes
    /// the root), or it names a node with a free output.
    pub open spec fn can_attach(&self, parent_name: Seq<char>) -> bool {
        is_root_name(parent_name) || (find_spec(self.nodes_spec(), parent_name) matches Some(p)
            && self.nodes_spec()[p].outs_spec().len() < 2)
    }

    /// Adds `node` under the node named `parent_name`, or as the root when
    /// that name is `-`.
    pub fn add(&mut self, parent_name: &str, node: Node)
        requires
            old(self).wf(),
            old(self).can_attach(parent_name@),
            old(self).nodes_spec().len() < usize::MAX,
        ensures
            final(self).wf(),
            final(self).nodes_spec().len() == old(self).nodes_spec().len() + 1,
            ({
                let k = old(self).nodes_spec().len() as int;
                let added = final(self).nodes_spec()[k];
                &&& added.name_spec() == node.name_spec()
                &&& added.function_spec() == node.function_spec()
                &&& added.outs_spec() == Seq::<usize>::empty()
                &&& if is_root_name(parent_name@) {
                    &&& added.parent_spec() is None
                    &&& final(self).root_spec() == Some(k as usize)
                    &&& final(self).nodes_spec().take(k) == old(self).nodes_spec()
                } else {
                    let p = find_spec(old(self).nodes_spec(), parent_name@)->0;
                    &&& added.parent_spec() == Some(p as usize)
                    &&& final(self).root_spec() == old(self).root_spec()
                    &&& final(self).nodes_spec()[p].outs_spec() == old(
                        self,
                    ).nodes_spec()[p].outs_spec().push(k as usize)
                    &&& final(self).nodes_spec()[p].function_spec() == old(
                        self,
                    ).nodes_spec()[p].function_spec()
                    &&& final(self).nodes_spec()[p].name_spec() == old(
                        self,
                    ).nodes_spec()[p].name_spec()
                    &&& final(self).nodes_spec()[p].parent_spec() == old(
                        self,
                    ).nodes_spec()[p].parent_spec()
                    &&& forall|i: int|
                        0 <= i < k && i != p ==> final(self).nodes_spec()[i] == old(
                            self,
                        ).nodes_spec()[i]
                }
            }),
    {
        let k = self.nodes.len();
        let Node { name, function, parent: _, outs: _ } = node;
        let is_root = parent_name.unicode_len() == 1 && parent_name.get_char(0) == '-';
        proof {
            if is_root {
                assert(parent_name@ =~= seq!['-']);
            }
        }
        if is_root {
            self.nodes.push(Node { name, function, parent: None, outs: Vec::new() });
            self.root = Some(k);
            assert(self.nodes@.take(k as int) =~= old(self).nodes@);
        } else {
            let p = match self.find(parent_name) {
                Some(p) => p,
                None => {
                    return ;
                },
            };
            let ghost before = self.nodes@;
            let mut parent_node = self.nodes.remove(p);
            parent_node.outs.push(k);
            self.nodes.insert(p, parent_node);
            assert(forall|i: int| 0 <= i < k && i != p ==> self.nodes@[i] == before[i]);
            self.nodes.push(Node { name, function, parent: Some(p), outs: Vec::new() });
        }
        proof {
            assert forall|i: int| 0 <= i < self.nodes@.len() implies {
                let n = #[trigger] self.nodes@[i];
                &&& n.parent_spec() matches Some(p) ==> (p as int) < self.nodes@.len()
                &&& n.outs_spec().len() <= 2
                &&& forall|j: int|
                    0 <= j < n.outs_spec().len() ==> (n.outs_spec()[j] as int)
                        < self.nodes@.len()
            } by {
                if i < k {
                    let n0 = old(self).nodes@[i];
                    assert(old(self).nodes_spec()[i] == n0);
                }
            }
        }
    }

    /// Whether the light `name` is on: the state of the node it hangs from.
    pub fn light_status(&self, name: &str) -> (r: Result<bool, String>)
        requires
            self.wf(),
        ensures
            r matches Ok(b) ==> self.status_spec(name@) == Ok::<bool, Seq<char>>(b),
            r matches Err(e) ==> self.status_spec(name@) == Err::<bool, Seq<char>>(e@),
    {
        match self.find(name) {
            None => Err(NODE_NOT_FOUND.to_owned()),
            Some(i) => {
                let n = &self.nodes[i];
                if n.function != NodeFunction::Light {
                    Err(NOT_A_LIGHT.to_owned())
                } else {
                    match n.parent {
                        None => Err(NO_PARENT.to_owned()),
                        Some(p) => match self.nodes[p].function {
                            NodeFunction::Generator(s) => Ok(s),
                            NodeFunction::Switch(s) => Ok(s),
                            NodeFunction::Light => Err(PARENT_NOT_SWITCH.to_owned()),
                        },
                    }
                }
            },
        }
    }

    /// Turns the light `name` on by turning on the node it hangs from;
    /// returns the new state, or the same error as `light_status`.
    pub fn turn_light_on(&mut self, name: &str) -> (r: Result<bool, String>)
        requires
            old(self).wf(),
        ensures
            final(self).wf(),
            final(self).nodes_spec().len() == old(self).nodes_spec().len(),
            r matches Err(e) ==> old(self).status_spec(name@) == Err::<bool, Seq<char>>(e@)
                && *final(self) == *old(self),
            r is Ok <==> old(self).status_spec(name@) is Ok,
            r is Ok ==> r == Ok::<bool, String>(true) && final(self).status_spec(name@) == Ok::<
                bool,
                Seq<char>,
            >(true),
            r is Ok ==> ({
                let pre = old(self).nodes_spec();
                let post = final(self).nodes_spec();
                let p = pre[find_spec(pre, name@)->0].parent_spec()->0 as int;
                &&& post[p].function_spec() == switched_on(pre[p].function_spec())
                &&& post[p].name_spec() == pre[p].name_spec()
                &&& post[p].parent_spec() == pre[p].parent_spec()
                &&& post[p].outs_spec() == pre[p].outs_spec()
                &&& forall|j: int| 0 <= j < pre.len() && j != p ==> post[j] == pre[j]
                &&& final(self).root_spec() == old(self).root_spec()
            }),
    {
        match self.find(name) {
            None => Err(NODE_NOT_FOUND.to_owned()),
            Some(i) => {
                if self.nodes[i].function != NodeFunction::Light {
                    return Err(NOT_A_LIGHT.to_owned());
                }
                match self.nodes[i].parent {
                    None => Err(NO_PARENT.to_owned()),
                    Some(p) => {
                        let f = match self.nodes[p].function {
                            NodeFunction::Generator(_) => NodeFunction::Generator(true),
                            NodeFunction::Switch(_) => NodeFunction::Switch(true),
                            NodeFunction::Light => {
                                return Err(PARENT_NOT_SWITCH.to_owned());
                            },
                        };
                        let ghost before = self.nodes@;
                        let mut parent_node = self.nodes.remove(p);
                        parent_node.function = f;
                        self.nodes.insert(p, parent_node);
                        proof {
                            assert(forall|j: int|
                                0 <= j < before.len() && j != p ==> self.nodes@[j] == before[j]);
                            assert(forall|j: int|
                                0 <= j < before.len() ==> self.nodes@[j].name_spec()
                                    == before[j].name_spec());
                            lemma_find_same_names(before, self.nodes@, name@);
                            assert forall|j: int| 0 <= j < self.nodes@.len() implies {
                                let n = #[trigger] self.nodes@[j];
                                &&& n.parent_spec() matches Some(q) ==> (q as int)
                                    < self.nodes@.len()
                                &&& n.outs_spec().len() <= 2
                                &&& forall|m: int|
                                    0 <= m < n.outs_spec().len() ==> (n.outs_spec()[m] as int)
                                        < self.nodes@.len()
                            } by {
                                assert(old(self).nodes_spec()[j] == before[j]);
                            }
                        }
                        Ok(true)
                    },
                }
            },
        }
    }
}

/// Lookup by name only reads names.
proof fn lemma_find_same_names(a: Seq<Node>, b: Seq<Node>, name: Seq<char>)
    requires
        a.len() == b.len(),
        forall|j: int| 0 <= j < a.len() ==> a[j].name_spec() == b[j].name_spec(),
    ensures
        find_spec(a, name) == find_spec(b, name),
    decreases a.len(),
{
    if a.len() > 0 {
        lemma_find_same_names(a.drop_last(), b.drop_last(), name);
    }
}

} // verus!
