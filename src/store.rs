use vstd::prelude::*;
use vstd::string::StringExecFns;

verus! {

/// Why an operation on a [`Store`] was rejected.
#[derive(Debug, Clone, Copy, PartialEq, Eq)]
pub enum StoreError {
    /// The binding was moved from and may no longer be used.
    UseAfterMove,
    /// The operation would break the aliasing rule: a live borrow forbids it.
    AliasConflict,
    /// The binding was not declared mutable.
    NotMutable,
    /// Shadowing is disabled and the name is already bound.
    RedeclarationShadow,
    /// No binding of that name is visible.
    UnknownBinding,
    /// The operation does not apply to this kind of value.
    WrongKind,
    /// `end_scope` was called with no scope open.
    NoOpenScope,
}

/// A value held by a binding: a duplicable scalar or an owned buffer.
#[derive(Debug, PartialEq, Eq)]
pub enum Value {
    Scalar(i64),
    Buffer(String),
}

/// The mathematical content of a [`Value`].
pub enum ValueView {
    Scalar(i64),
    Buffer(Seq<char>),
}

impl View for Value {
    type V = ValueView;

    open spec fn view(&self) -> ValueView {
        match self {
            Value::Scalar(n) => ValueView::Scalar(*n),
            Value::Buffer(s) => ValueView::Buffer(s@),
        }
    }
}

impl Value {
    /// A deep copy: a new value with the same content.
    pub fn duplicate(&self) -> (r: Value)
        ensures
            r@ == self@,
    {
        match self {
            Value::Scalar(n) => Value::Scalar(*n),
            Value::Buffer(s) => Value::Buffer(s.clone()),
        }
    }
}

/// An in-place change of a binding's value.
#[derive(Debug)]
pub enum Mutation {
    /// Replace the value by one of the same kind.
    Assign(Value),
    /// Append characters to a buffer.
    Append(String),
}

pub enum MutationView {
    Assign(ValueView),
    Append(Seq<char>),
}

impl View for Mutation {
    type V = MutationView;

    open spec fn view(&self) -> MutationView {
        match self {
            Mutation::Assign(v) => MutationView::Assign(v@),
            Mutation::Append(s) => MutationView::Append(s@),
        }
    }
}

/// The value that `op` makes of `v`, or `None` where the kinds do not fit.
pub open spec fn apply_mutation(v: ValueView, op: MutationView) -> Option<ValueView> {
    match (v, op) {
        (ValueView::Scalar(_), MutationView::Assign(ValueView::Scalar(n))) => Some(
            ValueView::Scalar(n),
        ),
        (ValueView::Buffer(_), MutationView::Assign(ValueView::Buffer(s))) => Some(
            ValueView::Buffer(s),
        ),
        (ValueView::Buffer(t), MutationView::Append(s)) => Some(ValueView::Buffer(t + s)),
        _ => None,
    }
}

/// One binding: its name, value, whether it may be mutated, whether its
/// value was moved out, and the scope depth at which it was introduced.
pub struct Binding {
    pub name: u64,
    pub value: Value,
    pub mutable: bool,
    pub moved: bool,
    pub depth: usize,
}

pub struct BindingView {
    pub name: u64,
    pub value: ValueView,
    pub mutable: bool,
    pub moved: bool,
    pub depth: usize,
}

impl View for Binding {
    type V = BindingView;

    open spec fn view(&self) -> BindingView {
        BindingView {
            name: self.name,
            value: self.value@,
            mutable: self.mutable,
            moved: self.moved,
            depth: self.depth,
        }
    }
}

/// A live borrow of the binding at index `target`, introduced at scope
/// depth `depth`; `exclusive` for a mutable borrow.
#[derive(Debug, Clone, Copy)]
pub struct Borrow {
    pub target: usize,
    pub exclusive: bool,
    pub depth: usize,
}

/// Index of the last binding named `name` in `bs`: the visible one.
pub open spec fn last_named(bs: Seq<BindingView>, name: u64) -> Option<int>
    decreases bs.len(),
{
    if bs.len() == 0 {
        None
    } else if bs.last().name == name {
        Some(bs.len() - 1)
    } else {
        last_named(bs.drop_last(), name)
    }
}

/// The bindings that survive the end of the scope at depth `d`.
pub open spec fn kept_bindings(bs: Seq<BindingView>, d: usize) -> Seq<BindingView>
    decreases bs.len(),
{
    if bs.len() > 0 && bs.last().depth >= d {
        kept_bindings(bs.drop_last(), d)
    } else {
        bs
    }
}

/// The borrows that survive the end of the scope at depth `d`.
pub open spec fn kept_borrows(rs: Seq<Borrow>, d: usize) -> Seq<Borrow>
    decreases rs.len(),
{
    if rs.len() > 0 && rs.last().depth >= d {
        kept_borrows(rs.drop_last(), d)
    } else {
        rs
    }
}

/// The buffer a binding releases when its scope ends: its content if it
/// still owns a buffer, nothing if it holds a scalar or was moved from.
pub open spec fn owned_buffer(b: BindingView) -> Seq<Seq<char>> {
    match b.value {
        ValueView::Buffer(s) => if b.moved {
            Seq::empty()
        } else {
            seq![s]
        },
        ValueView::Scalar(_) => Seq::empty(),
    }
}

/// The buffers released when the scope at depth `d` ends, in drop order
/// (the latest binding first).
pub open spec fn released(bs: Seq<BindingView>, d: usize) -> Seq<Seq<char>>
    decreases bs.len(),
{
    if bs.len() > 0 && bs.last().depth >= d {
        owned_buffer(bs.last()) + released(bs.drop_last(), d)
    } else {
        Seq::empty()
    }
}

/// The mathematical state of a [`Store`].
pub struct StoreView {
    pub bindings: Seq<BindingView>,
    pub borrows: Seq<Borrow>,
    pub depth: usize,
    pub allow_shadowing: bool,
}

impl StoreView {
    /// Bindings are ordered by scope depth and none is deeper than the
    /// current scope; the same holds of borrows. Every borrow refers to a
    /// binding of its own or an enclosing scope that has not been moved
    /// from. A mutable borrow is the only borrow of its binding, and that
    /// binding is mutable.
    pub open spec fn wf(self) -> bool {
        &&& self.bindings.len() <= usize::MAX
        &&& forall|i: int|
            0 <= i < self.bindings.len() ==> #[trigger] self.bindings[i].depth <= self.depth
        &&& forall|i: int, j: int|
            0 <= i <= j < self.bindings.len() ==> #[trigger] self.bindings[i].depth
                <= #[trigger] self.bindings[j].depth
        &&& forall|k: int| 0 <= k < self.borrows.len() ==> #[trigger] self.borrows[k].depth <= self.depth
        &&& forall|k: int, l: int|
            0 <= k <= l < self.borrows.len() ==> #[trigger] self.borrows[k].depth
                <= #[trigger] self.borrows[l].depth
        &&& forall|k: int|
            0 <= k < self.borrows.len() ==> {
                let r = #[trigger] self.borrows[k];
                &&& r.target < self.bindings.len()
                &&& self.bindings[r.target as int].depth <= r.depth
                &&& !self.bindings[r.target as int].moved
                &&& r.exclusive ==> self.bindings[r.target as int].mutable
            }
        &&& forall|k: int, l: int|
            0 <= k < self.borrows.len() && 0 <= l < self.borrows.len() && k != l
                && #[trigger] self.borrows[k].target == #[trigger] self.borrows[l].target
                ==> !self.borrows[k].exclusive
    }

    /// Index of the binding that `name` refers to.
    pub open spec fn visible(self, name: u64) -> Option<int> {
        last_named(self.bindings, name)
    }

    /// Some borrow of the binding at `i` is alive.
    pub open spec fn borrowed(self, i: int) -> bool {
        exists|k: int| 0 <= k < self.borrows.len() && #[trigger] self.borrows[k].target == i
    }

    /// A mutable borrow of the binding at `i` is alive.
    pub open spec fn borrowed_mutably(self, i: int) -> bool {
        exists|k: int|
            0 <= k < self.borrows.len() && #[trigger] self.borrows[k].target == i
                && self.borrows[k].exclusive
    }

    /// Why `name` cannot be read, if it cannot.
    pub open spec fn read_error(self, name: u64) -> Option<StoreError> {
        match self.visible(name) {
            None => Some(StoreError::UnknownBinding),
            Some(i) => if self.bindings[i].moved {
                Some(StoreError::UseAfterMove)
            } else if self.borrowed_mutably(i) {
                Some(StoreError::AliasConflict)
            } else {
                None
            },
        }
    }

    /// The value that `name` refers to.
    pub open spec fn value_of(self, name: u64) -> ValueView {
        self.bindings[self.visible(name).unwrap()].value
    }

    /// Why a new binding named `name` cannot be introduced, if it cannot.
    pub open spec fn shadow_error(self, name: u64) -> Option<StoreError> {
        if !self.allow_shadowing && self.visible(name) is Some {
            Some(StoreError::RedeclarationShadow)
        } else {
            None
        }
    }

    pub open spec fn push_binding(self, name: u64, value: ValueView, mutable: bool) -> StoreView {
        StoreView {
            bindings: self.bindings.push(
                BindingView { name, value, mutable, moved: false, depth: self.depth },
            ),
            ..self
        }
    }

    pub open spec fn push_borrow(self, i: int, exclusive: bool) -> StoreView {
        StoreView {
            borrows: self.borrows.push(Borrow { target: i as usize, exclusive, depth: self.depth }),
            ..self
        }
    }

    /// `declare(name, value, mutable)`.
    pub open spec fn declare_step(self, name: u64, value: ValueView, mutable: bool) -> Result<
        StoreView,
        StoreError,
    > {
        match self.shadow_error(name) {
            Some(e) => Err(e),
            None => Ok(self.push_binding(name, value, mutable)),
        }
    }

    /// `move(src, dst)`: the buffer goes to a new binding `dst`; `src` is
    /// left moved from and empty.
    pub open spec fn move_step(self, src: u64, dst: u64, mutable: bool) -> Result<
        StoreView,
        StoreError,
    > {
        match self.read_error(src) {
            Some(e) => Err(e),
            None => {
                let i = self.visible(src).unwrap();
                let b = self.bindings[i];
                if b.value is Scalar {
                    Err(StoreError::WrongKind)
                } else if self.borrowed(i) {
                    Err(StoreError::AliasConflict)
                } else {
                    match self.shadow_error(dst) {
                        Some(e) => Err(e),
                        None => Ok(
                            StoreView {
                                bindings: self.bindings.update(
                                    i,
                                    BindingView {
                                        moved: true,
                                        value: ValueView::Buffer(Seq::empty()),
                                        ..b
                                    },
                                ),
                                ..self
                            }.push_binding(dst, b.value, mutable),
                        ),
                    }
                }
            },
        }
    }

    /// `copy(src, dst)`: a new binding `dst` with the same scalar.
    pub open spec fn copy_step(self, src: u64, dst: u64, mutable: bool) -> Result<
        StoreView,
        StoreError,
    > {
        match self.read_error(src) {
            Some(e) => Err(e),
            None => if self.value_of(src) is Buffer {
                Err(StoreError::WrongKind)
            } else {
                match self.shadow_error(dst) {
                    Some(e) => Err(e),
                    None => Ok(self.push_binding(dst, self.value_of(src), mutable)),
                }
            },
        }
    }

    /// `clone(src, dst)`: a new binding `dst` with a deep copy of the value.
    pub open spec fn clone_step(self, src: u64, dst: u64, mutable: bool) -> Result<
        StoreView,
        StoreError,
    > {
        match self.read_error(src) {
            Some(e) => Err(e),
            None => match self.shadow_error(dst) {
                Some(e) => Err(e),
                None => Ok(self.push_binding(dst, self.value_of(src), mutable)),
            },
        }
    }

    /// `borrow_immutable(name)`.
    pub open spec fn borrow_immutable_step(self, name: u64) -> Result<StoreView, StoreError> {
        match self.read_error(name) {
            Some(e) => Err(e),
            None => Ok(self.push_borrow(self.visible(name).unwrap(), false)),
        }
    }

    /// Why `name` cannot be borrowed mutably or mutated, if it cannot.
    pub open spec fn write_error(self, name: u64) -> Option<StoreError> {
        match self.visible(name) {
            None => Some(StoreError::UnknownBinding),
            Some(i) => if self.bindings[i].moved {
                Some(StoreError::UseAfterMove)
            } else if self.borrowed(i) {
                Some(StoreError::AliasConflict)
            } else if !self.bindings[i].mutable {
                Some(StoreError::NotMutable)
            } else {
                None
            },
        }
    }

    /// `borrow_mutable(name)`.
    pub open spec fn borrow_mutable_step(self, name: u64) -> Result<StoreView, StoreError> {
        match self.write_error(name) {
            Some(e) => Err(e),
            None => Ok(self.push_borrow(self.visible(name).unwrap(), true)),
        }
    }

    /// `mutate(name, op)`.
    pub open spec fn mutate_step(self, name: u64, op: MutationView) -> Result<
        StoreView,
        StoreError,
    > {
        match self.write_error(name) {
            Some(e) => Err(e),
            None => {
                let i = self.visible(name).unwrap();
                match apply_mutation(self.bindings[i].value, op) {
                    None => Err(StoreError::WrongKind),
                    Some(v) => Ok(
                        StoreView {
                            bindings: self.bindings.update(i, BindingView { value: v, ..self.bindings[i] }),
                            ..self
                        },
                    ),
                }
            },
        }
    }

    /// Entering a nested scope.
    pub open spec fn begin_scope_step(self) -> StoreView {
        StoreView { depth: (self.depth + 1) as usize, ..self }
    }

    /// `end_scope`: the bindings and borrows of the innermost scope go.
    pub open spec fn end_scope_step(self) -> Result<StoreView, StoreError> {
        if self.depth == 0 {
            Err(StoreError::NoOpenScope)
        } else {
            Ok(
                StoreView {
                    bindings: kept_bindings(self.bindings, self.depth),
                    borrows: kept_borrows(self.borrows, self.depth),
                    depth: (self.depth - 1) as usize,
                    ..self
                },
            )
        }
    }
}

/// The outcome of an operation: the new state where it succeeds, the old
/// one where it is rejected.
pub open spec fn follows(before: StoreView, after: StoreView, r: Result<(), StoreError>, step: Result<StoreView, StoreError>) -> bool {
    match step {
        Ok(t) => r is Ok && after == t,
        Err(e) => r == Err::<(), StoreError>(e) && after == before,
    }
}


/// Index `i` is the last binding named `name` in `bs` exactly when
/// `last_named` says so.
pub(crate) proof fn lemma_last_named(bs: Seq<BindingView>, name: u64)
    ensures
        match last_named(bs, name) {
            Some(i) => 0 <= i < bs.len() && bs[i].name == name && forall|j: int|
                i < j < bs.len() ==> #[trigger] bs[j].name != name,
            None => forall|j: int| 0 <= j < bs.len() ==> #[trigger] bs[j].name != name,
        },
    decreases bs.len(),
{
    if bs.len() > 0 && bs.last().name != name {
        let p = bs.drop_last();
        lemma_last_named(p, name);
        assert(last_named(bs, name) == last_named(p, name));
        assert forall|j: int| 0 <= j < bs.len() - 1 implies bs[j] == #[trigger] p[j] by {}
        match last_named(p, name) {
            Some(i) => {
                assert forall|j: int| i < j < bs.len() implies #[trigger] bs[j].name != name by {
                    if j < bs.len() - 1 {
                        assert(bs[j] == p[j]);
                    }
                }
            },
            None => {
                assert forall|j: int| 0 <= j < bs.len() implies #[trigger] bs[j].name != name by {
                    if j < bs.len() - 1 {
                        assert(bs[j] == p[j]);
                    }
                }
            },
        }
    }
}

/// Replacing a binding by one of the same name leaves every name referring
/// to the index it referred to before.
pub(crate) proof fn lemma_last_named_update(bs: Seq<BindingView>, i: int, b: BindingView, name: u64)
    requires
        0 <= i < bs.len(),
        b.name == bs[i].name,
    ensures
        last_named(bs.update(i, b), name) == last_named(bs, name),
{
    let u = bs.update(i, b);
    lemma_last_named(bs, name);
    lemma_last_named(u, name);
    assert forall|j: int| 0 <= j < bs.len() implies #[trigger] u[j].name == bs[j].name by {}
    match (last_named(bs, name), last_named(u, name)) {
        (Some(x), Some(y)) => {
            if x < y {
                assert(bs[y].name == u[y].name);
            } else if y < x {
                assert(bs[x].name == u[x].name);
            }
        },
        (Some(x), None) => {
            assert(bs[x].name == u[x].name);
        },
        (None, Some(y)) => {
            assert(bs[y].name == u[y].name);
        },
        (None, None) => {},
    }
}

pub(crate) proof fn lemma_last_named_push(bs: Seq<BindingView>, b: BindingView, name: u64)
    ensures
        last_named(bs.push(b), name) == if b.name == name {
            Some(bs.len() as int)
        } else {
            last_named(bs, name)
        },
{
    assert(bs.push(b).drop_last() =~= bs);
}

/// The store: bindings in order of declaration, live borrows in order of
/// creation, the current scope depth, and whether shadowing is allowed.
pub struct Store {
    bindings: Vec<Binding>,
    borrows: Vec<Borrow>,
    depth: usize,
    allow_shadowing: bool,
}

impl View for Store {
    type V = StoreView;

    closed spec fn view(&self) -> StoreView {
        StoreView {
            bindings: self.bindings@.map_values(|b: Binding| b@),
            borrows: self.borrows@,
            depth: self.depth,
            allow_shadowing: self.allow_shadowing,
        }
    }
}

impl Store {
    /// An empty store at the outermost scope.
    pub fn new(allow_shadowing: bool) -> (r: Store)
        ensures
            r@.wf(),
            r@.bindings.len() == 0,
            r@.borrows.len() == 0,
            r@.depth == 0,
            r@.allow_shadowing == allow_shadowing,
    {
        let r = Store { bindings: Vec::new(), borrows: Vec::new(), depth: 0, allow_shadowing };
        assert(r@.bindings =~= Seq::<BindingView>::empty());
        r
    }

    /// The current scope depth; the outermost scope is 0.
    pub fn depth(&self) -> (r: usize)
        ensures
            r == self@.depth,
    {
        self.depth
    }

    /// Index of the binding that `name` refers to.
    fn find(&self, name: u64) -> (r: Option<usize>)
        ensures
            match r {
                Some(i) => self@.visible(name) == Some(i as int),
                None => self@.visible(name) is None,
            },
    {
        let ghost bs = self@.bindings;
        proof {
            lemma_last_named(bs, name);
        }
        let mut i: usize = self.bindings.len();
        while i > 0
            invariant
                i <= self.bindings.len(),
                bs == self@.bindings,
                forall|j: int| i <= j < bs.len() ==> #[trigger] bs[j].name != name,
            decreases i,
        {
            if self.bindings[i - 1].name == name {
                assert(bs[i - 1].name == name);
                proof {
                    lemma_last_named(bs, name);
                    match last_named(bs, name) {
                        Some(k) => {
                            if k < i - 1 {
                                assert(bs[i - 1].name != name);
                            }
                        },
                        None => {
                            assert(bs[i - 1].name != name);
                        },
                    }
                }
                return Some(i - 1);
            }
            assert(bs[i - 1].name != name);
            i = i - 1;
        }
        None
    }

    /// Whether some borrow (a mutable one, where `mutable_only`) of the
    /// binding at `i` is alive.
    fn is_borrowed(&self, i: usize, mutable_only: bool) -> (r: bool)
        ensures
            r == if mutable_only {
                self@.borrowed_mutably(i as int)
            } else {
                self@.borrowed(i as int)
            },
    {
        let mut k: usize = 0;
        while k < self.borrows.len()
            invariant
                k <= self.borrows.len(),
                forall|l: int|
                    0 <= l < k ==> (#[trigger] self.borrows@[l]).target != i || (mutable_only
                        && !self.borrows@[l].exclusive),
            decreases self.borrows.len() - k,
        {
            let r = self.borrows[k];
            if r.target == i && (!mutable_only || r.exclusive) {
                assert(self@.borrows[k as int] == r);
                return true;
            }
            k = k + 1;
        }
        false
    }

    /// The binding `name` refers to, where it can be read.
    fn check_read(&self, name: u64) -> (r: Result<usize, StoreError>)
        requires
            self@.wf(),
        ensures
            match self@.read_error(name) {
                Some(e) => r == Err::<usize, StoreError>(e),
                None => r == Ok::<usize, StoreError>(self@.visible(name).unwrap() as usize),
            },
            r matches Ok(i) ==> i < self@.bindings.len() && self@.visible(name) == Some(i as int),
    {
        proof {
            lemma_last_named(self@.bindings, name);
        }
        match self.find(name) {
            None => Err(StoreError::UnknownBinding),
            Some(i) => {
                if self.bindings[i].moved {
                    Err(StoreError::UseAfterMove)
                } else if self.is_borrowed(i, true) {
                    Err(StoreError::AliasConflict)
                } else {
                    Ok(i)
                }
            },
        }
    }

    /// The binding `name` refers to, where it can be borrowed mutably.
    fn check_write(&self, name: u64) -> (r: Result<usize, StoreError>)
        requires
            self@.wf(),
        ensures
            match self@.write_error(name) {
                Some(e) => r == Err::<usize, StoreError>(e),
                None => r == Ok::<usize, StoreError>(self@.visible(name).unwrap() as usize),
            },
            r matches Ok(i) ==> i < self@.bindings.len() && self@.visible(name) == Some(i as int),
    {
        proof {
            lemma_last_named(self@.bindings, name);
        }
        match self.find(name) {
            None => Err(StoreError::UnknownBinding),
            Some(i) => {
                if self.bindings[i].moved {
                    Err(StoreError::UseAfterMove)
                } else if self.is_borrowed(i, false) {
                    Err(StoreError::AliasConflict)
                } else if !self.bindings[i].mutable {
                    Err(StoreError::NotMutable)
                } else {
                    Ok(i)
                }
            },
        }
    }

    fn check_shadow(&self, name: u64) -> (r: Option<StoreError>)
        ensures
            r == self@.shadow_error(name),
    {
        if !self.allow_shadowing && self.find(name).is_some() {
            Some(StoreError::RedeclarationShadow)
        } else {
            None
        }
    }

    /// Appends a binding and returns its index.
    fn push_binding(&mut self, name: u64, value: Value, mutable: bool) -> (idx: usize)
        requires
            old(self)@.wf(),
        ensures
            final(self)@ == old(self)@.push_binding(name, value@, mutable),
            final(self)@.wf(),
            idx == old(self)@.bindings.len(),
    {
        let b = Binding { name, value, mutable, moved: false, depth: self.depth };
        let ghost v = b@;
        self.bindings.push(b);
        assert(self@.bindings =~= old(self)@.bindings.push(v));
        self.bindings.len() - 1
    }

    fn push_borrow(&mut self, i: usize, exclusive: bool) -> (h: usize)
        requires
            old(self)@.wf(),
            i < old(self)@.bindings.len(),
            !old(self)@.bindings[i as int].moved,
            exclusive ==> old(self)@.bindings[i as int].mutable && !old(self)@.borrowed(i as int),
            !exclusive ==> !old(self)@.borrowed_mutably(i as int),
        ensures
            final(self)@ == old(self)@.push_borrow(i as int, exclusive),
            final(self)@.wf(),
            h == old(self)@.borrows.len(),
    {
        let h = self.borrows.len();
        self.borrows.push(Borrow { target: i, exclusive, depth: self.depth });
        let ghost s = self@;
        let ghost o = old(self)@;
        assert(s.bindings =~= o.bindings);
        assert forall|k: int, l: int|
            0 <= k < s.borrows.len() && 0 <= l < s.borrows.len() && k != l
                && #[trigger] s.borrows[k].target == #[trigger] s.borrows[l].target
            implies !s.borrows[k].exclusive by {
            if k == h {
                assert(o.borrows[l].target == i);
            } else if l == h {
                assert(o.borrows[k].target == i);
            }
        }
        h
    }

    /// Declares a new binding `name` holding `value`, mutable if asked.
    /// An earlier binding of the same name is shadowed, not destroyed;
    /// where shadowing is disabled and `name` is bound, the store is left
    /// unchanged and `RedeclarationShadow` is returned.
    pub fn declare(&mut self, name: u64, value: Value, mutable: bool) -> (r: Result<(), StoreError>)
        requires
            old(self)@.wf(),
        ensures
            final(self)@.wf(),
            follows(old(self)@, final(self)@, r, old(self)@.declare_step(name, value@, mutable)),
    {
        if let Some(e) = self.check_shadow(name) {
            return Err(e);
        }
        let _ = self.push_binding(name, value, mutable);
        Ok(())
    }

    /// The value that `name` refers to. Fails with `UseAfterMove` on a
    /// binding that was moved from, with `AliasConflict` while it is
    /// borrowed mutably.
    pub fn read(&self, name: u64) -> (r: Result<&Value, StoreError>)
        requires
            self@.wf(),
        ensures
            match self@.read_error(name) {
                Some(e) => r == Err::<&Value, StoreError>(e),
                None => r matches Ok(v) && v@ == self@.value_of(name),
            },
    {
        let i = match self.check_read(name) {
            Ok(i) => i,
            Err(e) => {
                return Err(e);
            },
        };
        assert(self@.bindings[i as int] == self.bindings@[i as int]@);
        Ok(&self.bindings[i].value)
    }

    /// Moves the buffer of `src` into a new binding `dst`: `src` is left
    /// moved from, and any later use of it fails with `UseAfterMove`.
    /// Scalars are copied, not moved (`WrongKind`); a borrowed binding
    /// cannot be moved (`AliasConflict`).
    pub fn move_binding(&mut self, src: u64, dst: u64, mutable: bool) -> (r: Result<(), StoreError>)
        requires
            old(self)@.wf(),
        ensures
            final(self)@.wf(),
            follows(old(self)@, final(self)@, r, old(self)@.move_step(src, dst, mutable)),
    {
        let i = match self.check_read(src) {
            Ok(i) => i,
            Err(e) => {
                return Err(e);
            },
        };
        assert(self@.bindings[i as int] == self.bindings@[i as int]@);
        if let Value::Scalar(_) = self.bindings[i].value {
            return Err(StoreError::WrongKind);
        }
        if self.is_borrowed(i, false) {
            return Err(StoreError::AliasConflict);
        }
        if let Some(e) = self.check_shadow(dst) {
            return Err(e);
        }
        let ghost o = self@;
        let mut v = Value::Buffer(String::new());
        std::mem::swap(&mut self.bindings[i].value, &mut v);
        self.bindings[i].moved = true;
        let ghost b = o.bindings[i as int];
        let ghost u = StoreView {
            bindings: o.bindings.update(
                i as int,
                BindingView { moved: true, value: ValueView::Buffer(Seq::empty()), ..b },
            ),
            ..o
        };
        assert(self@.bindings =~= u.bindings);
        assert(v@ == b.value);
        assert forall|k: int| 0 <= k < u.borrows.len() implies #[trigger] u.borrows[k].target != i by {
        }
        let _ = self.push_binding(dst, v, mutable);
        Ok(())
    }

    /// Copies the scalar of `src` into a new binding `dst`; both stay
    /// usable. Buffers are not copied implicitly (`WrongKind`).
    pub fn copy_binding(&mut self, src: u64, dst: u64, mutable: bool) -> (r: Result<(), StoreError>)
        requires
            old(self)@.wf(),
        ensures
            final(self)@.wf(),
            follows(old(self)@, final(self)@, r, old(self)@.copy_step(src, dst, mutable)),
    {
        let i = match self.check_read(src) {
            Ok(i) => i,
            Err(e) => {
                return Err(e);
            },
        };
        assert(self@.bindings[i as int] == self.bindings@[i as int]@);
        let n = match self.bindings[i].value {
            Value::Scalar(n) => n,
            Value::Buffer(_) => {
                return Err(StoreError::WrongKind);
            },
        };
        if let Some(e) = self.check_shadow(dst) {
            return Err(e);
        }
        let _ = self.push_binding(dst, Value::Scalar(n), mutable);
        Ok(())
    }

    /// Puts a deep copy of the value of `src` into a new binding `dst`;
    /// both stay usable and own distinct data.
    pub fn clone_binding(&mut self, src: u64, dst: u64, mutable: bool) -> (r: Result<(), StoreError>)
        requires
            old(self)@.wf(),
        ensures
            final(self)@.wf(),
            follows(old(self)@, final(self)@, r, old(self)@.clone_step(src, dst, mutable)),
    {
        let i = match self.check_read(src) {
            Ok(i) => i,
            Err(e) => {
                return Err(e);
            },
        };
        assert(self@.bindings[i as int] == self.bindings@[i as int]@);
        if let Some(e) = self.check_shadow(dst) {
            return Err(e);
        }
        let v = self.bindings[i].value.duplicate();
        let _ = self.push_binding(dst, v, mutable);
        Ok(())
    }

    /// Borrows `name` immutably and returns the borrow's handle. Fails
    /// with `AliasConflict` while a mutable borrow of it is alive.
    pub fn borrow_immutable(&mut self, name: u64) -> (r: Result<usize, StoreError>)
        requires
            old(self)@.wf(),
        ensures
            final(self)@.wf(),
            match old(self)@.borrow_immutable_step(name) {
                Ok(t) => r == Ok::<usize, StoreError>(old(self)@.borrows.len() as usize)
                    && final(self)@ == t,
                Err(e) => r == Err::<usize, StoreError>(e) && final(self)@ == old(self)@,
            },
    {
        let i = match self.check_read(name) {
            Ok(i) => i,
            Err(e) => {
                return Err(e);
            },
        };
        Ok(self.push_borrow(i, false))
    }

    /// Borrows `name` mutably and returns the borrow's handle. Fails with
    /// `AliasConflict` while any borrow of it is alive, and with
    /// `NotMutable` on a binding not declared mutable.
    pub fn borrow_mutable(&mut self, name: u64) -> (r: Result<usize, StoreError>)
        requires
            old(self)@.wf(),
        ensures
            final(self)@.wf(),
            match old(self)@.borrow_mutable_step(name) {
                Ok(t) => r == Ok::<usize, StoreError>(old(self)@.borrows.len() as usize)
                    && final(self)@ == t,
                Err(e) => r == Err::<usize, StoreError>(e) && final(self)@ == old(self)@,
            },
    {
        let i = match self.check_write(name) {
            Ok(i) => i,
            Err(e) => {
                return Err(e);
            },
        };
        Ok(self.push_borrow(i, true))
    }

    /// Changes the value of `name` in place. Fails with `AliasConflict`
    /// while it is borrowed, with `NotMutable` where it was not declared
    /// mutable, and with `WrongKind` where `op` does not fit its value.
    pub fn mutate(&mut self, name: u64, op: Mutation) -> (r: Result<(), StoreError>)
        requires
            old(self)@.wf(),
        ensures
            final(self)@.wf(),
            follows(old(self)@, final(self)@, r, old(self)@.mutate_step(name, op@)),
    {
        let i = match self.check_write(name) {
            Ok(i) => i,
            Err(e) => {
                return Err(e);
            },
        };
        assert(self@.bindings[i as int] == self.bindings@[i as int]@);
        if !fits(&self.bindings[i].value, &op) {
            return Err(StoreError::WrongKind);
        }
        let ghost o = self@;
        let mut v = Value::Scalar(0);
        std::mem::swap(&mut self.bindings[i].value, &mut v);
        let w = apply(v, op);
        self.bindings[i].value = w;
        assert(self@.bindings =~= o.bindings.update(
            i as int,
            BindingView { value: w@, ..o.bindings[i as int] },
        ));
        Ok(())
    }

    /// Enters a nested scope.
    pub fn begin_scope(&mut self)
        requires
            old(self)@.wf(),
            old(self)@.depth < usize::MAX,
        ensures
            final(self)@.wf(),
            final(self)@ == old(self)@.begin_scope_step(),
    {
        self.depth = self.depth + 1;
        assert(self@.bindings =~= old(self)@.bindings);
    }

    /// Ends the innermost scope: its borrows are released and its bindings
    /// destroyed. Returns the buffers released, latest binding first: one
    /// for each binding of the scope that still owned a buffer; a binding
    /// that was moved from releases nothing. Fails with `NoOpenScope` at
    /// the outermost scope.
    pub fn end_scope(&mut self) -> (r: Result<Vec<String>, StoreError>)
        requires
            old(self)@.wf(),
        ensures
            final(self)@.wf(),
            match old(self)@.end_scope_step() {
                Ok(t) => r matches Ok(v) && v@.map_values(|s: String| s@) == released(
                    old(self)@.bindings,
                    old(self)@.depth,
                ) && final(self)@ == t,
                Err(e) => r == Err::<Vec<String>, StoreError>(e) && final(self)@ == old(self)@,
            },
    {
        if self.depth == 0 {
            return Err(StoreError::NoOpenScope);
        }
        let d = self.depth;
        let ghost b0 = self@.bindings;
        let ghost r0 = self@.borrows;
        let mut out: Vec<String> = Vec::new();
        while self.bindings.len() > 0 && self.bindings[self.bindings.len() - 1].depth >= d
            invariant
                self.depth == d,
                self.borrows@ == r0,
                self.allow_shadowing == old(self).allow_shadowing,
                self@.bindings.len() <= b0.len(),
                self@.bindings == b0.take(self@.bindings.len() as int),
                forall|j: int| self@.bindings.len() <= j < b0.len() ==> #[trigger] b0[j].depth >= d,
                kept_bindings(self@.bindings, d) == kept_bindings(b0, d),
                out@.map_values(|s: String| s@) + released(self@.bindings, d) == released(b0, d),
            decreases self.bindings.len(),
        {
            let ghost cur = self@.bindings;
            let ghost before = out@.map_values(|s: String| s@);
            let b = self.bindings.pop().unwrap();
            assert(self@.bindings =~= cur.drop_last());
            assert(b@ == cur.last());
            if !b.moved {
                if let Value::Buffer(s) = b.value {
                    out.push(s);
                }
            }
            assert(out@.map_values(|s: String| s@) =~= before + owned_buffer(b@));
            assert(before + (owned_buffer(b@) + released(cur.drop_last(), d)) =~= (before
                + owned_buffer(b@)) + released(cur.drop_last(), d));
            assert(self@.bindings =~= b0.take(self@.bindings.len() as int));
        }
        let ghost bk = self@.bindings;
        assert(kept_bindings(bk, d) == bk);
        assert(released(bk, d) =~= Seq::<Seq<char>>::empty());
        assert(out@.map_values(|s: String| s@) + Seq::<Seq<char>>::empty() =~= out@.map_values(
            |s: String| s@,
        ));
        while self.borrows.len() > 0 && self.borrows[self.borrows.len() - 1].depth >= d
            invariant
                self.depth == d,
                self@.bindings == bk,
                self.allow_shadowing == old(self).allow_shadowing,
                self.borrows@.len() <= r0.len(),
                self.borrows@ == r0.take(self.borrows@.len() as int),
                kept_borrows(self.borrows@, d) == kept_borrows(r0, d),
            decreases self.borrows.len(),
        {
            let ghost cur = self.borrows@;
            self.borrows.pop();
            assert(self.borrows@ =~= cur.drop_last());
            assert(self.borrows@ =~= r0.take(self.borrows@.len() as int));
        }
        self.depth = d - 1;
        proof {
            let s = self@;
            let o = old(self)@;
            assert(kept_borrows(s.borrows, d) == s.borrows);
            assert forall|i: int| 0 <= i < s.bindings.len() implies #[trigger] s.bindings[i].depth
                <= s.depth by {
                assert(s.bindings[i] == o.bindings[i]);
                assert(s.bindings[s.bindings.len() - 1] == o.bindings[s.bindings.len() - 1]);
            }
            assert forall|k: int| 0 <= k < s.borrows.len() implies #[trigger] s.borrows[k].depth
                <= s.depth by {
                assert(s.borrows[k] == o.borrows[k]);
                assert(s.borrows[s.borrows.len() - 1] == o.borrows[s.borrows.len() - 1]);
            }
            assert forall|k: int| 0 <= k < s.borrows.len() implies {
                let r = #[trigger] s.borrows[k];
                &&& r.target < s.bindings.len()
                &&& s.bindings[r.target as int].depth <= r.depth
                &&& !s.bindings[r.target as int].moved
                &&& r.exclusive ==> s.bindings[r.target as int].mutable
            } by {
                assert(s.borrows[k] == o.borrows[k]);
                assert(s.borrows[s.borrows.len() - 1] == o.borrows[s.borrows.len() - 1]);
                let t = o.borrows[k].target as int;
                if t >= s.bindings.len() {
                    assert(o.bindings[t].depth >= d);
                }
                assert(s.bindings[t] == o.bindings[t]);
            }
            assert forall|k: int, l: int|
                0 <= k < s.borrows.len() && 0 <= l < s.borrows.len() && k != l
                    && #[trigger] s.borrows[k].target == #[trigger] s.borrows[l].target
                implies !s.borrows[k].exclusive by {
                assert(s.borrows[k] == o.borrows[k]);
                assert(s.borrows[l] == o.borrows[l]);
            }
        }
        Ok(out)
    }
}

/// Whether `op` applies to `v`.
fn fits(v: &Value, op: &Mutation) -> (r: bool)
    ensures
        r == apply_mutation(v@, op@) is Some,
{
    match (v, op) {
        (Value::Scalar(_), Mutation::Assign(Value::Scalar(_))) => true,
        (Value::Buffer(_), Mutation::Assign(Value::Buffer(_))) => true,
        (Value::Buffer(_), Mutation::Append(_)) => true,
        _ => false,
    }
}

/// The value that `op` makes of `v`.
fn apply(v: Value, op: Mutation) -> (r: Value)
    requires
        apply_mutation(v@, op@) is Some,
    ensures
        r@ == apply_mutation(v@, op@).unwrap(),
{
    match (v, op) {
        (Value::Buffer(t), Mutation::Append(s)) => Value::Buffer(t.concat(s.as_str())),
        (_, Mutation::Assign(w)) => w,
        (v, _) => v,
    }
}

} // verus!
