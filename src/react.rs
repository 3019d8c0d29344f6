use vstd::prelude::*;
use vstd::std_specs::cmp::PartialEqSpec;

verus! {

/// An input cell of a reactor.
#[derive(Clone, Copy, Debug, PartialEq, Eq, Hash, Structural)]
pub struct InputCellId(usize);

/// A compute cell of a reactor.
#[derive(Clone, Copy, Debug, PartialEq, Eq, Hash, Structural)]
pub struct ComputeCellId(usize);

/// A callback registered on a compute cell.
#[derive(Clone, Copy, Debug, PartialEq, Eq, Hash, Structural)]
pub struct CallbackId(usize);

#[derive(Clone, Copy, Debug, PartialEq, Eq, Hash, Structural)]
pub enum CellId {
    Input(InputCellId),
    Compute(ComputeCellId),
}

#[derive(Debug, PartialEq, Eq, Structural)]
pub enum RemoveCallbackError {
    NonexistentCell,
    NonexistentCallback,
}

#[derive(Debug)]
pub enum ComputeError {
    InvalidDependency(CellId),
    NonexistentComputeId(ComputeCellId),
}

impl InputCellId {
    pub closed spec fn index(&self) -> nat {
        self.0 as nat
    }
}

impl ComputeCellId {
    pub closed spec fn index(&self) -> nat {
        self.0 as nat
    }
}

impl CallbackId {
    pub closed spec fn index(&self) -> nat {
        self.0 as nat
    }

    /// The number of the callback: callbacks are numbered from 0 in the order
    /// they were added to their reactor.
    pub fn number(&self) -> (r: usize)
        ensures
            r == self.index(),
    {
        self.0
    }
}

/// A network of cells: input cells hold values that are set from outside;
/// each compute cell holds what its function makes of the values of the cells
/// it depends on, all created before it. Callbacks on compute cells are kept
/// as ids; the caller runs them.
pub struct Reactor<T, F> {
    inputs: Vec<T>,
    input_listeners: Vec<Vec<usize>>,
    values: Vec<T>,
    funcs: Vec<F>,
    deps: Vec<Vec<CellId>>,
    listeners: Vec<Vec<usize>>,
    callbacks: Vec<Vec<usize>>,
    next_callback: usize,
}

/// Adds `n` to a list of listeners unless it is there already.
fn add_listener(list: &mut Vec<usize>, n: usize)
    ensures
        forall|x: usize| final(list)@.contains(x) <==> old(list)@.contains(x) || x == n,
        old(list)@.contains(n) ==> final(list)@ == old(list)@,
        !old(list)@.contains(n) ==> final(list)@ == old(list)@.push(n),
{
    let mut k: usize = 0;
    while k < list.len()
        invariant
            k <= list@.len(),
            forall|j: int| 0 <= j < k ==> list@[j] != n,
        decreases list.len() - k,
    {
        if list[k] == n {
            assert(list@[k as int] == n);
            return;
        }
        k = k + 1;
    }
    let ghost before = list@;
    assert(!before.contains(n));
    list.push(n);
    assert forall|x: usize| list@.contains(x) <==> before.contains(x) || x == n by {
        if list@.contains(x) && x != n {
            let j = choose|j: int| 0 <= j < list@.len() && list@[j] == x;
            assert(before[j] == x);
        }
        if before.contains(x) {
            let j = choose|j: int| 0 <= j < before.len() && before[j] == x;
            assert(list@[j] == x);
        }
        if x == n {
            assert(list@[list@.len() - 1] == n);
        }
    }
}

impl<T: Copy + PartialEq, F: Fn(&[T]) -> T> Reactor<T, F> {
    /// The values of the input cells.
    pub closed spec fn inputs_view(&self) -> Seq<T> {
        self.inputs@
    }

    /// The values of the compute cells.
    pub closed spec fn computed(&self) -> Seq<T> {
        self.values@
    }

    /// The cells that compute cell `c` depends on, in order.
    pub closed spec fn deps_of(&self, c: int) -> Seq<CellId> {
        self.deps@[c]@
    }

    /// The function of compute cell `c`.
    pub closed spec fn func_of(&self, c: int) -> F {
        self.funcs@[c]
    }

    /// The callbacks registered on compute cell `c`.
    pub closed spec fn callbacks_of(&self, c: int) -> Seq<usize> {
        self.callbacks@[c]@
    }

    /// The compute cells that depend directly on input cell `i`.
    pub closed spec fn input_listeners_of(&self, i: int) -> Seq<usize> {
        self.input_listeners@[i]@
    }

    pub open spec fn has_cell(&self, id: CellId) -> bool {
        match id {
            CellId::Input(i) => i.index() < self.inputs_view().len(),
            CellId::Compute(c) => c.index() < self.computed().len(),
        }
    }

    pub open spec fn cell_value(&self, id: CellId) -> Option<T> {
        match id {
            CellId::Input(i) => if i.index() < self.inputs_view().len() {
                Some(self.inputs_view()[i.index() as int])
            } else {
                None
            },
            CellId::Compute(c) => if c.index() < self.computed().len() {
                Some(self.computed()[c.index() as int])
            } else {
                None
            },
        }
    }

    /// The values of the cells `deps`, in order.
    pub open spec fn values_of(&self, deps: Seq<CellId>) -> Seq<T> {
        deps.map_values(|d: CellId| self.cell_value(d).unwrap())
    }

    /// Every dependency of a compute cell is a cell created before it, every
    /// listener a compute cell created after what it listens to, and every
    /// function can be called on any arguments.
    pub closed spec fn wf(&self) -> bool {
        let n = self.values@.len();
        &&& self.input_listeners@.len() == self.inputs@.len()
        &&& self.funcs@.len() == n
        &&& self.deps@.len() == n
        &&& self.listeners@.len() == n
        &&& self.callbacks@.len() == n
        &&& forall|c: int, k: int|
            0 <= c < n && 0 <= k < self.deps@[c]@.len() ==> match #[trigger] self.deps@[c]@[k] {
                CellId::Input(i) => i.0 < self.inputs@.len(),
                CellId::Compute(d) => d.0 < c,
            }
        &&& forall|i: int, k: int|
            0 <= i < self.inputs@.len() && 0 <= k < self.input_listeners@[i]@.len() ==> #[trigger] self.input_listeners@[i]@[k] < n
        &&& forall|i: int, a: int, b: int|
            0 <= i < self.inputs@.len() && 0 <= a < b < self.input_listeners@[i]@.len() ==> #[trigger] self.input_listeners@[i]@[a]
                < #[trigger] self.input_listeners@[i]@[b]
        &&& forall|c: int, k: int|
            0 <= c < n && 0 <= k < self.listeners@[c]@.len() ==> c < #[trigger] self.listeners@[c]@[k] < n
        &&& forall|c: int, a: &[T]| 0 <= c < n ==> #[trigger] self.funcs@[c].requires((a,))
        &&& forall|c: int, k: int|
            0 <= c < n && 0 <= k < self.callbacks@[c]@.len() ==> #[trigger] self.callbacks@[c]@[k] < self.next_callback
        &&& forall|c: int, i: int, j: int|
            0 <= c < n && 0 <= i < j < self.callbacks@[c]@.len() ==> #[trigger] self.callbacks@[c]@[i]
                != #[trigger] self.callbacks@[c]@[j]
    }

    /// How many callbacks were ever added.
    pub closed spec fn callback_count(&self) -> nat {
        self.next_callback as nat
    }

    /// How many callbacks were ever added.
    pub fn callbacks_added(&self) -> (r: usize)
        ensures
            r == self.callback_count(),
    {
        self.next_callback
    }

    /// The shape of the network: which cells there are, how they depend on
    /// each other and which callbacks they have.
    pub closed spec fn same_shape(&self, other: &Self) -> bool {
        &&& self.input_listeners == other.input_listeners
        &&& self.funcs == other.funcs
        &&& self.deps == other.deps
        &&& self.listeners == other.listeners
        &&& self.callbacks == other.callbacks
        &&& self.next_callback == other.next_callback
        &&& self.inputs@.len() == other.inputs@.len()
        &&& self.values@.len() == other.values@.len()
    }

    pub fn new() -> (r: Self)
        ensures
            r.wf(),
            r.inputs_view() == Seq::<T>::empty(),
            r.computed() == Seq::<T>::empty(),
    {
        Reactor {
            inputs: Vec::new(),
            input_listeners: Vec::new(),
            values: Vec::new(),
            funcs: Vec::new(),
            deps: Vec::new(),
            listeners: Vec::new(),
            callbacks: Vec::new(),
            next_callback: 0,
        }
    }

    /// Creates an input cell holding `initial`.
    pub fn create_input(&mut self, initial: T) -> (r: InputCellId)
        requires
            old(self).wf(),
        ensures
            final(self).wf(),
            r.index() == old(self).inputs_view().len(),
            final(self).inputs_view() == old(self).inputs_view().push(initial),
            final(self).computed() == old(self).computed(),
    {
        let id = self.inputs.len();
        self.inputs.push(initial);
        self.input_listeners.push(Vec::new());
        proof {
            assert forall|i: int, k: int|
                0 <= i < self.inputs@.len() && 0 <= k < self.input_listeners@[i]@.len() implies #[trigger] self.input_listeners@[i]@[k]
                < self.values@.len() by {
                if i < id {
                    assert(self.input_listeners@[i] == old(self).input_listeners@[i]);
                }
            }
        }
        InputCellId(id)
    }

    /// The first of `deps` that is not a cell, if any.
    fn check(&self, deps: &[CellId]) -> (r: Result<(), CellId>)
        ensures
            r is Ok <==> forall|k: int| 0 <= k < deps@.len() ==> self.has_cell(#[trigger] deps@[k]),
            r matches Err(d) ==> exists|k: int|
                0 <= k < deps@.len() && deps@[k] == d && !self.has_cell(d) && forall|j: int|
                    0 <= j < k ==> self.has_cell(#[trigger] deps@[j]),
    {
        let mut k: usize = 0;
        while k < deps.len()
            invariant
                k <= deps@.len(),
                forall|j: int| 0 <= j < k ==> self.has_cell(#[trigger] deps@[j]),
            decreases deps.len() - k,
        {
            let d = deps[k];
            let ok = match d {
                CellId::Input(i) => i.0 < self.inputs.len(),
                CellId::Compute(c) => c.0 < self.values.len(),
            };
            if !ok {
                return Err(d);
            }
            k = k + 1;
        }
        Ok(())
    }

    /// The values of the cells `deps`, which all exist.
    fn args(&self, deps: &[CellId]) -> (r: Vec<T>)
        requires
            forall|k: int| 0 <= k < deps@.len() ==> self.has_cell(#[trigger] deps@[k]),
        ensures
            r@ == self.values_of(deps@),
    {
        let mut out: Vec<T> = Vec::new();
        let mut k: usize = 0;
        while k < deps.len()
            invariant
                k <= deps@.len(),
                forall|j: int| 0 <= j < deps@.len() ==> self.has_cell(#[trigger] deps@[j]),
                out@ == self.values_of(deps@.take(k as int)),
            decreases deps.len() - k,
        {
            let v = match deps[k] {
                CellId::Input(i) => self.inputs[i.0],
                CellId::Compute(c) => self.values[c.0],
            };
            out.push(v);
            k = k + 1;
            assert(out@ =~= self.values_of(deps@.take(k as int)));
        }
        assert(deps@.take(k as int) =~= deps@);
        out
    }

    /// Creates a compute cell whose value is what `compute_func` makes of the
    /// values of `dependencies`, in that order; fails with the first
    /// dependency that is not a cell.
    pub fn create_compute(&mut self, dependencies: &[CellId], compute_func: F) -> (r: Result<
        ComputeCellId,
        CellId,
    >)
        requires
            old(self).wf(),
            forall|a: &[T]| #[trigger] compute_func.requires((a,)),
        ensures
            final(self).wf(),
            final(self).inputs_view() == old(self).inputs_view(),
            match r {
                Ok(c) => {
                    &&& forall|k: int| 0 <= k < dependencies@.len() ==> old(self).has_cell(#[trigger] dependencies@[k])
                    &&& c.index() == old(self).computed().len()
                    &&& final(self).computed().drop_last() == old(self).computed()
                    &&& final(self).computed().len() == old(self).computed().len() + 1
                    &&& final(self).deps_of(c.index() as int) == dependencies@
                    &&& exists|a: &[T]|
                        a@ == old(self).values_of(dependencies@) && #[trigger] compute_func.ensures(
                            (a,),
                            final(self).computed().last(),
                        )
                },
                Err(d) => {
                    &&& !old(self).has_cell(d)
                    &&& final(self).computed() == old(self).computed()
                    &&& exists|k: int|
                        0 <= k < dependencies@.len() && dependencies@[k] == d && forall|j: int|
                            0 <= j < k ==> old(self).has_cell(#[trigger] dependencies@[j])
                },
            },
    {
        match self.check(dependencies) {
            Err(d) => return Err(d),
            Ok(()) => {},
        }
        let args = self.args(dependencies);
        let sl = args.as_slice();
        let value = compute_func(sl);
        assert(sl@ == old(self).values_of(dependencies@));
        let n = self.values.len();
        let mut own_deps: Vec<CellId> = Vec::new();
        let mut k: usize = 0;
        while k < dependencies.len()
            invariant
                k <= dependencies@.len(),
                own_deps@ == dependencies@.take(k as int),
            decreases dependencies.len() - k,
        {
            own_deps.push(dependencies[k]);
            k = k + 1;
            assert(own_deps@ =~= dependencies@.take(k as int));
        }
        assert(dependencies@.take(k as int) =~= dependencies@);
        self.values.push(value);
        self.funcs.push(compute_func);
        self.deps.push(own_deps);
        self.listeners.push(Vec::new());
        self.callbacks.push(Vec::new());
        proof {
            assert forall|c: int, k: int|
                0 <= c < n + 1 && 0 <= k < self.deps@[c]@.len() implies match #[trigger] self.deps@[c]@[k] {
                CellId::Input(i) => i.0 < self.inputs@.len(),
                CellId::Compute(d) => d.0 < c,
            } by {
                if c < n {
                    assert(self.deps@[c] == old(self).deps@[c]);
                } else {
                    assert(old(self).has_cell(dependencies@[k]));
                }
            }
            assert forall|c: int, k: int|
                0 <= c < n + 1 && 0 <= k < self.listeners@[c]@.len() implies c < #[trigger] self.listeners@[c]@[k]
                < n + 1 by {
                if c < n {
                    assert(self.listeners@[c] == old(self).listeners@[c]);
                }
            }
            assert forall|c: int, k: int|
                0 <= c < n + 1 && 0 <= k < self.callbacks@[c]@.len() implies #[trigger] self.callbacks@[c]@[k]
                < self.next_callback by {
                if c < n {
                    assert(self.callbacks@[c] == old(self).callbacks@[c]);
                }
            }
            assert forall|c: int, a: &[T]| 0 <= c < n + 1 implies #[trigger] self.funcs@[c].requires((a,)) by {
                if c < n {
                    assert(self.funcs@[c] == old(self).funcs@[c]);
                }
            }
            assert forall|i: int, k: int|
                0 <= i < self.inputs@.len() && 0 <= k < self.input_listeners@[i]@.len() implies #[trigger] self.input_listeners@[i]@[k]
                < n + 1 by {
            }
        }
        let mut k: usize = 0;
        while k < dependencies.len()
            invariant
                self.wf(),
                n + 1 == self.values@.len(),
                k <= dependencies@.len(),
                forall|j: int| 0 <= j < dependencies@.len() ==> old(self).has_cell(#[trigger] dependencies@[j]),
                self.inputs@ == old(self).inputs@,
                self.values@ == old(self).values@.push(value),
                self.deps@[n as int]@ == dependencies@,
                old(self).values@.len() == n,
                old(self).inputs@.len() == self.inputs@.len(),
            decreases dependencies.len() - k,
        {
            match dependencies[k] {
                CellId::Input(i) => {
                    let ghost before = self.input_listeners@;
                    let mut l = self.input_listeners.remove(i.0);
                    add_listener(&mut l, n);
                    self.input_listeners.insert(i.0, l);
                    assert(self.input_listeners@ =~= before.update(i.0 as int, l));
                    proof {
                        assert forall|x: int, y: int|
                            0 <= x < self.inputs@.len() && 0 <= y < self.input_listeners@[x]@.len() implies #[trigger] self.input_listeners@[x]@[y]
                            < self.values@.len() by {
                            if x != i.0 {
                                assert(self.input_listeners@[x] == before[x]);
                            } else {
                                let z = self.input_listeners@[x]@[y];
                                assert(l@.contains(z));
                            }
                        }
                        assert forall|x: int, a: int, b: int|
                            0 <= x < self.inputs@.len() && 0 <= a < b < self.input_listeners@[x]@.len() implies #[trigger] self.input_listeners@[x]@[a]
                            < #[trigger] self.input_listeners@[x]@[b] by {
                            if x != i.0 {
                                assert(self.input_listeners@[x] == before[x]);
                            } else if b == before[x]@.len() {
                                assert(self.input_listeners@[x]@[a] == before[x]@[a]);
                                assert(before[x]@[a] < n);
                            } else {
                                assert(self.input_listeners@[x]@[a] == before[x]@[a]);
                                assert(self.input_listeners@[x]@[b] == before[x]@[b]);
                            }
                        }
                    }
                },
                CellId::Compute(c) => {
                    let ghost before = self.listeners@;
                    let mut l = self.listeners.remove(c.0);
                    add_listener(&mut l, n);
                    self.listeners.insert(c.0, l);
                    assert(self.listeners@ =~= before.update(c.0 as int, l));
                    proof {
                        assert forall|x: int, y: int|
                            0 <= x < self.values@.len() && 0 <= y < self.listeners@[x]@.len() implies x < #[trigger] self.listeners@[x]@[y]
                            < self.values@.len() by {
                            if x != c.0 {
                                assert(self.listeners@[x] == before[x]);
                            } else {
                                let z = self.listeners@[x]@[y];
                                assert(l@.contains(z));
                            }
                        }
                    }
                },
            }
            k = k + 1;
        }
        assert(self.values@.drop_last() =~= old(self).values@);
        assert(self.values@.last() == value);
        assert(sl@ == old(self).values_of(dependencies@) && compute_func.ensures((sl,), value));
        Ok(ComputeCellId(n))
    }

    /// The value of a cell, or `None` if there is no such cell.
    pub fn value(&self, id: CellId) -> (r: Option<T>)
        ensures
            r == self.cell_value(id),
    {
        match id {
            CellId::Input(i) => if i.0 < self.inputs.len() {
                Some(self.inputs[i.0])
            } else {
                None
            },
            CellId::Compute(c) => if c.0 < self.values.len() {
                Some(self.values[c.0])
            } else {
                None
            },
        }
    }

    /// Computes cell `c` again from the values of its dependencies and, if its
    /// value changed, the cells that depend on it, recursively.
    fn compute_at(&mut self, c: usize) -> (r: T)
        requires
            old(self).wf(),
            c < old(self).computed().len(),
        ensures
            final(self).wf(),
            final(self).same_shape(old(self)),
            final(self).inputs_view() == old(self).inputs_view(),
            forall|j: int| 0 <= j < c ==> final(self).computed()[j] == old(self).computed()[j],
            r == final(self).computed()[c as int],
            final(self).consistent(c as int),
        decreases old(self).computed().len() - c,
    {
        proof {
            assert forall|k: int| 0 <= k < self.deps@[c as int]@.len() implies self.has_cell(
                #[trigger] self.deps@[c as int]@[k],
            ) by {
                let d = self.deps@[c as int]@[k];
            }
        }
        let args = self.args(self.deps[c].as_slice());
        let sl = args.as_slice();
        let v = (self.funcs[c])(sl);
        let ghost deps = self.deps@[c as int]@;
        let ghost mid_values = self.values_of(deps);
        let origin = self.values[c];
        self.values.set(c, v);
        let ghost shape = *self;
        assert(shape.values@ == old(self).values@.update(c as int, v));
        assert(self.values_of(deps) =~= mid_values) by {
            assert forall|k: int| 0 <= k < deps.len() implies #[trigger] self.values_of(deps)[k]
                == mid_values[k] by {
                let d = deps[k];
                assert(old(self).deps@[c as int]@[k] == d);
            }
        }
        assert(self.wf());
        if !(v == origin) {
            let ls = copy_list(&self.listeners[c]);
            let mut k: usize = 0;
            while k < ls.len()
                invariant
                    self.wf(),
                    self.same_shape(old(self)),
                    self.inputs@ == old(self).inputs@,
                    c < self.values@.len(),
                    ls@ == self.listeners@[c as int]@,
                    forall|j: int| 0 <= j <= c ==> self.values@[j] == shape.values@[j],
                    k <= ls@.len(),
                decreases ls.len() - k,
            {
                let l = ls[k];
                assert(self.listeners@[c as int]@[k as int] == l);
                self.compute_at(l);
                k = k + 1;
            }
            assert(self.values_of(deps) =~= mid_values) by {
                assert forall|k: int| 0 <= k < deps.len() implies #[trigger] self.values_of(deps)[k]
                    == mid_values[k] by {
                    let d = deps[k];
                    assert(old(self).deps@[c as int]@[k] == d);
                }
            }
        }
        assert(self.func_of(c as int) == old(self).func_of(c as int));
        assert(self.deps_of(c as int) == deps);
        assert(self.values@[c as int] == shape.values@[c as int]);
        assert(forall|j: int| 0 <= j < c ==> self.values@[j] == shape.values@[j]);
        assert forall|j: int| 0 <= j < c implies self.computed()[j] == old(self).computed()[j] by {
            assert(self.values@[j] == shape.values@[j]);
            assert(shape.values@[j] == old(self).values@[j]);
        }
        assert(sl@ == self.values_of(self.deps_of(c as int)));
        assert(self.func_of(c as int).ensures((sl,), self.computed()[c as int]));
        v
    }

    /// Computes a compute cell again, and what depends on it; `None` if there
    /// is no such cell.
    pub fn compute(&mut self, id: ComputeCellId) -> (r: Option<T>)
        requires
            old(self).wf(),
        ensures
            final(self).wf(),
            final(self).same_shape(old(self)),
            final(self).inputs_view() == old(self).inputs_view(),
            id.index() >= old(self).computed().len() ==> r is None && final(self).computed()
                == old(self).computed(),
            id.index() < old(self).computed().len() ==> r == Some(
                final(self).computed()[id.index() as int],
            ) && final(self).consistent(id.index() as int),
    {
        if id.0 >= self.values.len() {
            return None;
        }
        Some(self.compute_at(id.0))
    }

    /// Compute cell `c` holds what its function makes of the current values of
    /// its dependencies.
    pub open spec fn consistent(&self, c: int) -> bool {
        exists|a: &[T]|
            a@ == self.values_of(self.deps_of(c)) && #[trigger] self.func_of(c).ensures(
                (a,),
                self.computed()[c],
            )
    }

    proof fn lemma_consistent_kept(&self, other: &Self, c: int, bound: int)
        requires
            self.wf(),
            other.same_shape(self),
            other.inputs@ == self.inputs@,
            0 <= c < bound <= self.values@.len(),
            forall|x: int| 0 <= x < bound ==> other.values@[x] == self.values@[x],
            self.consistent(c),
        ensures
            other.consistent(c),
    {
        let deps = self.deps_of(c);
        assert(other.values_of(deps) =~= self.values_of(deps)) by {
            assert forall|k: int| 0 <= k < deps.len() implies #[trigger] other.values_of(deps)[k]
                == self.values_of(deps)[k] by {
                let d = self.deps@[c]@[k];
            }
        }
        let a = choose|a: &[T]|
            a@ == self.values_of(self.deps_of(c)) && #[trigger] self.func_of(c).ensures(
                (a,),
                self.computed()[c],
            );
        assert(other.func_of(c) == self.func_of(c));
        assert(other.deps_of(c) == deps);
        assert(other.computed()[c] == self.computed()[c]);
        assert(other.func_of(c).ensures((a,), other.computed()[c]));
    }

    /// The callbacks to run once the compute cells went from the values of
    /// `before` to those of `self`: for each of the first `k` cells in turn
    /// whose value changed, each of its callbacks with the cell's new value.
    pub open spec fn fired_since(&self, before: &Self, k: nat) -> Seq<(usize, T)>
        decreases k,
    {
        if k == 0 || k > self.computed().len() {
            seq![]
        } else {
            self.fired_since(before, (k - 1) as nat) + if !before.computed()[k - 1].eq_spec(
                &self.computed()[k - 1],
            ) {
                self.callbacks_of(k - 1).map_values(|cb: usize| (cb, self.computed()[k - 1]))
            } else {
                seq![]
            }
        }
    }

    /// Recomputes compute cell `c` from the current values of its dependencies.
    fn refresh(&mut self, c: usize)
        requires
            old(self).wf(),
            c < old(self).computed().len(),
        ensures
            final(self).wf(),
            final(self).same_shape(old(self)),
            final(self).inputs_view() == old(self).inputs_view(),
            forall|j: int| 0 <= j < final(self).computed().len() && j != c ==> final(self).computed()[j]
                == old(self).computed()[j],
            final(self).consistent(c as int),
    {
        proof {
            assert forall|k: int| 0 <= k < self.deps@[c as int]@.len() implies self.has_cell(
                #[trigger] self.deps@[c as int]@[k],
            ) by {
                let d = self.deps@[c as int]@[k];
            }
        }
        let args = self.args(self.deps[c].as_slice());
        let sl = args.as_slice();
        let v = (self.funcs[c])(sl);
        let ghost deps = self.deps@[c as int]@;
        let ghost mid_values = self.values_of(deps);
        self.values.set(c, v);
        assert(self.values_of(deps) =~= mid_values) by {
            assert forall|k: int| 0 <= k < deps.len() implies #[trigger] self.values_of(deps)[k]
                == mid_values[k] by {
                let d = deps[k];
                assert(old(self).deps@[c as int]@[k] == d);
            }
        }
        assert(self.func_of(c as int) == old(self).func_of(c as int));
        assert(self.deps_of(c as int) == deps);
        assert(sl@ == self.values_of(self.deps_of(c as int)));
        assert(self.func_of(c as int).ensures((sl,), self.computed()[c as int]));
    }

    /// Sets input cell `id` to `new_value` and brings every compute cell up to
    /// date, in the order the cells were created; a value equal to the current
    /// one changes nothing. Gives the callbacks to run: for each compute cell
    /// whose value changed, each of its callbacks once, with the cell's new
    /// value. `None` if there is no such input cell.
    pub fn set_value(&mut self, id: InputCellId, new_value: T) -> (r: Option<Vec<(CallbackId, T)>>)
        requires
            old(self).wf(),
            T::obeys_eq_spec(),
        ensures
            final(self).wf(),
            final(self).same_shape(old(self)),
            id.index() >= old(self).inputs_view().len() ==> r is None && final(self).inputs_view()
                == old(self).inputs_view() && final(self).computed() == old(self).computed(),
            id.index() < old(self).inputs_view().len() && old(self).inputs_view()[id.index() as int].eq_spec(
                &new_value,
            ) ==> (r matches Some(fired) && fired@.len() == 0) && final(self).inputs_view()
                == old(self).inputs_view() && final(self).computed() == old(self).computed(),
            id.index() < old(self).inputs_view().len() && !old(self).inputs_view()[id.index() as int].eq_spec(
                &new_value,
            ) ==> (r matches Some(fired) && fired@.map_values(
                |p: (CallbackId, T)| (p.0.index() as usize, p.1),
            ) == final(self).fired_since(old(self), final(self).computed().len()))
                && final(self).inputs_view() == old(self).inputs_view().update(
                id.index() as int,
                new_value,
            ) && forall|c: int| 0 <= c < final(self).computed().len() ==> #[trigger] final(self).consistent(c),
    {
        if id.0 >= self.inputs.len() {
            return None;
        }
        let mut fired: Vec<(CallbackId, T)> = Vec::new();
        if self.inputs[id.0] == new_value {
            return Some(fired);
        }
        self.inputs.set(id.0, new_value);
        let before = copy_values(&self.values);
        let n = self.values.len();
        assert(self.wf());
        let mut c: usize = 0;
        while c < n
            invariant
                self.wf(),
                self.same_shape(old(self)),
                self.inputs@ == old(self).inputs@.update(id.0 as int, new_value),
                n == self.values@.len(),
                c <= n,
                forall|j: int| 0 <= j < c ==> #[trigger] self.consistent(j),
            decreases n - c,
        {
            let ghost prev = *self;
            self.refresh(c);
            proof {
                assert forall|j: int| 0 <= j < c + 1 implies #[trigger] self.consistent(j) by {
                    if j < c {
                        assert(prev.consistent(j));
                        prev.lemma_consistent_kept(self, j, c as int);
                    }
                }
            }
            c = c + 1;
        }
        let mut k: usize = 0;
        while k < n
            invariant
                self.wf(),
                self.same_shape(old(self)),
                n == self.values@.len(),
                before@ == old(self).values@,
                T::obeys_eq_spec(),
                k <= n,
                fired@.map_values(|p: (CallbackId, T)| (p.0.index() as usize, p.1)) == self.fired_since(
                    old(self),
                    k as nat,
                ),
            decreases n - k,
        {
            let v = self.values[k];
            let ghost start = fired@;
            if !(before[k] == v) {
                let mut m: usize = 0;
                while m < self.callbacks[k].len()
                    invariant
                        k < n,
                        n == self.callbacks@.len(),
                        m <= self.callbacks@[k as int]@.len(),
                        fired@ == start + self.callbacks@[k as int]@.take(m as int).map_values(
                            |cb: usize| (CallbackId(cb), v),
                        ),
                    decreases self.callbacks@[k as int]@.len() - m,
                {
                    fired.push((CallbackId(self.callbacks[k][m]), v));
                    m = m + 1;
                    assert(fired@ =~= start + self.callbacks@[k as int]@.take(m as int).map_values(
                        |cb: usize| (CallbackId(cb), v),
                    ));
                }
                assert(self.callbacks@[k as int]@.take(m as int) =~= self.callbacks@[k as int]@);
                assert(!old(self).computed()[k as int].eq_spec(&self.computed()[k as int]));
                assert(self.callbacks_of(k as int) == self.callbacks@[k as int]@);
                assert(fired@.map_values(|p: (CallbackId, T)| (p.0.index() as usize, p.1)) =~= start.map_values(
                    |p: (CallbackId, T)| (p.0.index() as usize, p.1),
                ) + self.callbacks_of(k as int).map_values(|cb: usize| (cb, self.computed()[k as int])));
                assert(fired@.map_values(|p: (CallbackId, T)| (p.0.index() as usize, p.1))
                    =~= self.fired_since(old(self), (k + 1) as nat));
            } else {
                assert(old(self).computed()[k as int].eq_spec(&self.computed()[k as int]));
                assert(fired@.map_values(|p: (CallbackId, T)| (p.0.index() as usize, p.1))
                    =~= self.fired_since(old(self), (k + 1) as nat));
            }
            k = k + 1;
        }
        Some(fired)
    }

    /// Registers a new callback on a compute cell; `None` if there is no such cell.
    pub fn add_callback(&mut self, id: ComputeCellId) -> (r: Option<CallbackId>)
        requires
            old(self).wf(),
            old(self).callback_count() < usize::MAX,
        ensures
            final(self).wf(),
            final(self).inputs_view() == old(self).inputs_view(),
            final(self).computed() == old(self).computed(),
            id.index() >= old(self).computed().len() ==> r is None && final(self).callback_count()
                == old(self).callback_count(),
            id.index() < old(self).computed().len() ==> (r matches Some(cb) && cb.index()
                == old(self).callback_count() && final(self).callbacks_of(id.index() as int)
                == old(self).callbacks_of(id.index() as int).push(cb.index() as usize)
                && final(self).callback_count() == old(self).callback_count() + 1),
    {
        if id.0 >= self.values.len() {
            return None;
        }
        let cid = self.next_callback;
        let ghost before = self.callbacks@;
        let mut list = self.callbacks.remove(id.0);
        list.push(cid);
        self.callbacks.insert(id.0, list);
        assert(self.callbacks@ =~= before.update(id.0 as int, list));
        self.next_callback = cid + 1;
        proof {
            assert forall|c: int, k: int|
                0 <= c < self.values@.len() && 0 <= k < self.callbacks@[c]@.len() implies #[trigger] self.callbacks@[c]@[k]
                < self.next_callback by {
                if c != id.0 {
                    assert(self.callbacks@[c] == before[c]);
                }
            }
            assert forall|c: int, i: int, j: int|
                0 <= c < self.values@.len() && 0 <= i < j < self.callbacks@[c]@.len() implies #[trigger] self.callbacks@[c]@[i]
                != #[trigger] self.callbacks@[c]@[j] by {
                if c != id.0 {
                    assert(self.callbacks@[c] == before[c]);
                } else if j == self.callbacks@[c]@.len() - 1 {
                    assert(self.callbacks@[c]@[i] == before[c]@[i]);
                } else {
                    assert(self.callbacks@[c]@[i] == before[c]@[i]);
                    assert(self.callbacks@[c]@[j] == before[c]@[j]);
                }
            }
        }
        Some(CallbackId(cid))
    }

    /// Removes a callback from a compute cell.
    pub fn remove_callback(&mut self, cell: ComputeCellId, callback: CallbackId) -> (r: Result<
        (),
        RemoveCallbackError,
    >)
        requires
            old(self).wf(),
        ensures
            final(self).wf(),
            final(self).inputs_view() == old(self).inputs_view(),
            final(self).computed() == old(self).computed(),
            cell.index() >= old(self).computed().len() ==> r == Err::<(), RemoveCallbackError>(
                RemoveCallbackError::NonexistentCell,
            ),
            cell.index() < old(self).computed().len() && !old(self).callbacks_of(
                cell.index() as int,
            ).contains(callback.index() as usize) ==> r == Err::<(), RemoveCallbackError>(
                RemoveCallbackError::NonexistentCallback,
            ) && final(self).callbacks_of(cell.index() as int) == old(self).callbacks_of(
                cell.index() as int,
            ),
            cell.index() < old(self).computed().len() && old(self).callbacks_of(
                cell.index() as int,
            ).contains(callback.index() as usize) ==> r == Ok::<(), RemoveCallbackError>(())
                && forall|x: usize|
                final(self).callbacks_of(cell.index() as int).contains(x) <==> old(self).callbacks_of(
                    cell.index() as int,
                ).contains(x) && x != callback.index(),
    {
        if cell.0 >= self.values.len() {
            return Err(RemoveCallbackError::NonexistentCell);
        }
        let ghost before = self.callbacks@;
        let ghost old_list = before[cell.0 as int]@;
        let mut k: usize = 0;
        while k < self.callbacks[cell.0].len()
            invariant
                *self == *old(self),
                self.wf(),
                before == self.callbacks@,
                cell.0 < self.callbacks@.len(),
                old_list == before[cell.0 as int]@,
                k <= old_list.len(),
                forall|j: int| 0 <= j < k ==> old_list[j] != callback.0,
            decreases self.callbacks@[cell.0 as int]@.len() - k,
        {
            if self.callbacks[cell.0][k] == callback.0 {
                let mut list = self.callbacks.remove(cell.0);
                list.remove(k);
                self.callbacks.insert(cell.0, list);
                assert(self.callbacks@ =~= before.update(cell.0 as int, list));
                proof {
                    assert(list@ =~= old_list.remove(k as int));
                    assert forall|x: usize| list@.contains(x) <==> old_list.contains(x) && x
                        != callback.0 by {
                        if list@.contains(x) {
                            let j = choose|j: int| 0 <= j < list@.len() && list@[j] == x;
                            if j < k {
                                assert(old_list[j] == x);
                            } else {
                                assert(old_list[j + 1] == x);
                            }
                        }
                        if old_list.contains(x) && x != callback.0 {
                            let j = choose|j: int| 0 <= j < old_list.len() && old_list[j] == x;
                            if j < k {
                                assert(list@[j] == x);
                            } else {
                                assert(j != k);
                                assert(list@[j - 1] == x);
                            }
                        }
                    }
                    assert forall|c: int, i: int|
                        0 <= c < self.values@.len() && 0 <= i < self.callbacks@[c]@.len() implies #[trigger] self.callbacks@[c]@[i]
                        < self.next_callback by {
                        if c != cell.0 {
                            assert(self.callbacks@[c] == before[c]);
                        } else if i < k {
                            assert(list@[i] == old_list[i]);
                        } else {
                            assert(list@[i] == old_list[i + 1]);
                        }
                    }
                    assert forall|c: int, i: int, j: int|
                        0 <= c < self.values@.len() && 0 <= i < j < self.callbacks@[c]@.len() implies #[trigger] self.callbacks@[c]@[i]
                        != #[trigger] self.callbacks@[c]@[j] by {
                        if c != cell.0 {
                            assert(self.callbacks@[c] == before[c]);
                        } else {
                            let i0 = if i < k { i } else { i + 1 };
                            let j0 = if j < k { j } else { j + 1 };
                            assert(list@[i] == old_list[i0]);
                            assert(list@[j] == old_list[j0]);
                        }
                    }
                }
                return Ok(());
            }
            k = k + 1;
        }
        Err(RemoveCallbackError::NonexistentCallback)
    }
}

fn copy_values<T: Copy>(v: &Vec<T>) -> (r: Vec<T>)
    ensures
        r@ == v@,
{
    let mut r: Vec<T> = Vec::new();
    let mut i: usize = 0;
    while i < v.len()
        invariant
            i <= v@.len(),
            r@ == v@.take(i as int),
        decreases v.len() - i,
    {
        r.push(v[i]);
        i = i + 1;
        assert(r@ =~= v@.take(i as int));
    }
    assert(v@.take(i as int) =~= v@);
    r
}

fn copy_list(v: &Vec<usize>) -> (r: Vec<usize>)
    ensures
        r@ == v@,
{
    let mut r: Vec<usize> = Vec::new();
    let mut i: usize = 0;
    while i < v.len()
        invariant
            i <= v@.len(),
            r@ == v@.take(i as int),
        decreases v.len() - i,
    {
        r.push(v[i]);
        i = i + 1;
        assert(r@ =~= v@.take(i as int));
    }
    assert(v@.take(i as int) =~= v@);
    r
}

} // verus!
