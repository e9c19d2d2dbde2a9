//! Key/value cache for incremental decoding.
//!
//! Layout is `[layer][position][kv_head * head_dim]`, contiguous in the last
//! dimension: attention reads one position's keys for one head at a time, and
//! this puts exactly those values next to each other.
use crate::config::Config;
use crate::text;
use crate::text::push_decimal;
use vstd::prelude::*;

verus! {

/// Why a cache cannot take more positions.
#[derive(Debug, Clone, Copy, PartialEq, Eq, Structural)]
pub struct CacheFull {
    pub len: usize,
    pub n: usize,
    pub capacity: usize,
}

impl CacheFull {
    /// The error in words.
    pub open spec fn text(self) -> Seq<char> {
        "kv cache full: "@ + text::decimal(self.len as nat) + " + "@ + text::decimal(self.n as nat)
            + " exceeds capacity "@ + text::decimal(self.capacity as nat)
    }

    /// The error in words.
    pub fn message(&self) -> (m: String)
        ensures
            m@ == self.text(),
    {
        let mut m = "kv cache full: ".to_owned();
        push_decimal(&mut m, self.len as u64);
        m.append(" + ");
        push_decimal(&mut m, self.n as u64);
        m.append(" exceeds capacity ");
        push_decimal(&mut m, self.capacity as u64);
        m
    }
}

/// Keys and values of the positions seen so far.
#[derive(Debug)]
pub struct KvCache<T> {
    k: Vec<T>,
    v: Vec<T>,
    len: usize,
    capacity: usize,
    kv_dim: usize,
    n_layer: usize,
}

/// What a cache is: its geometry, how many positions are valid, and its two
/// tensors.
pub ghost struct CacheView<T> {
    pub k: Seq<T>,
    pub v: Seq<T>,
    pub len: nat,
    pub capacity: nat,
    pub kv_dim: nat,
    pub n_layer: nat,
}

impl<T> CacheView<T> {
    /// A cache of which every element is `zero` and no position valid.
    pub open spec fn fresh(cfg: Config, capacity: nat, zero: T) -> CacheView<T> {
        let kv_dim = (cfg.n_kv_head * (cfg.n_embd / cfg.n_head)) as nat;
        let total = cfg.n_layer as nat * capacity * kv_dim;
        CacheView {
            k: Seq::new(total, |i: int| zero),
            v: Seq::new(total, |i: int| zero),
            len: 0,
            capacity,
            kv_dim,
            n_layer: cfg.n_layer as nat,
        }
    }

    /// First element of a position's row in a layer.
    pub open spec fn offset(self, layer: nat, pos: nat) -> nat {
        (layer * self.capacity + pos) * self.kv_dim
    }

    /// Elements of each tensor.
    pub open spec fn total(self) -> nat {
        self.n_layer * self.capacity * self.kv_dim
    }

    /// The tensors have the size of the geometry, and no more positions are
    /// valid than there is room for.
    pub open spec fn wf(self) -> bool {
        &&& self.len <= self.capacity
        &&& self.k.len() == self.total()
        &&& self.v.len() == self.total()
    }

    /// One head's vector of a position's row.
    pub open spec fn head(self, t: Seq<T>, layer: nat, pos: nat, head: nat, head_dim: nat) -> Seq<
        T,
    > {
        let base = self.offset(layer, pos) + head * head_dim;
        t.subrange(base as int, (base + head_dim) as int)
    }

    /// The row of one position.
    pub open spec fn row(self, t: Seq<T>, layer: nat, pos: nat) -> Seq<T> {
        let at = self.offset(layer, pos);
        t.subrange(at as int, (at + self.kv_dim) as int)
    }

    /// A tensor with the row of one position replaced.
    pub open spec fn with_row(self, t: Seq<T>, layer: nat, pos: nat, row: Seq<T>) -> Seq<T> {
        let at = self.offset(layer, pos);
        t.take(at as int) + row + t.skip((at + self.kv_dim) as int)
    }
}

impl<T> View for KvCache<T> {
    type V = CacheView<T>;

    closed spec fn view(&self) -> CacheView<T> {
        CacheView {
            k: self.k@,
            v: self.v@,
            len: self.len as nat,
            capacity: self.capacity as nat,
            kv_dim: self.kv_dim as nat,
            n_layer: self.n_layer as nat,
        }
    }
}

proof fn lemma_row_fits(layer: nat, pos: nat, n_layer: nat, capacity: nat, kv_dim: nat)
    requires
        layer < n_layer,
        pos < capacity,
    ensures
        layer * capacity + pos < n_layer * capacity,
        (layer * capacity + pos) * kv_dim + kv_dim <= n_layer * capacity * kv_dim,
        layer * capacity <= n_layer * capacity,
{
    assert(layer * capacity + capacity <= n_layer * capacity) by (nonlinear_arith)
        requires
            layer + 1 <= n_layer,
    ;
    let r = layer * capacity + pos;
    let n = n_layer * capacity;
    assert(r * kv_dim + kv_dim <= n * kv_dim) by (nonlinear_arith)
        requires
            r + 1 <= n,
    ;
}

impl<T: Copy> KvCache<T> {
    /// Whether a cache of `capacity` positions can be addressed.
    pub open spec fn fits(cfg: Config, capacity: usize) -> bool {
        &&& cfg.n_head > 0
        &&& cfg.n_kv_head * (cfg.n_embd / cfg.n_head) <= usize::MAX
        &&& cfg.n_layer * capacity <= usize::MAX
        &&& cfg.n_layer * capacity * (cfg.n_kv_head * (cfg.n_embd / cfg.n_head)) <= usize::MAX
    }

    /// A cache of `capacity` positions, all of them `zero` and none valid.
    pub fn new(cfg: &Config, capacity: usize, zero: T) -> (c: Self)
        requires
            Self::fits(*cfg, capacity),
        ensures
            c@.wf(),
            c@ == CacheView::fresh(*cfg, capacity as nat, zero),
    {
        let kv_dim: usize = cfg.n_kv_head * cfg.head_dim();
        let total: usize = cfg.n_layer * capacity * kv_dim;
        let mut k: Vec<T> = Vec::new();
        let mut v: Vec<T> = Vec::new();
        let mut i: usize = 0;
        while i < total
            invariant
                i <= total,
                k@.len() == i,
                v@.len() == i,
                forall|j: int| 0 <= j < i ==> #[trigger] k@[j] == zero,
                forall|j: int| 0 <= j < i ==> #[trigger] v@[j] == zero,
            decreases total - i,
        {
            k.push(zero);
            v.push(zero);
            i += 1;
        }
        assert(k@ =~= Seq::new(total as nat, |i: int| zero));
        assert(v@ =~= Seq::new(total as nat, |i: int| zero));
        KvCache { k, v, len: 0, capacity, kv_dim, n_layer: cfg.n_layer }
    }

    /// Take the cache out, leaving one without room behind.
    pub(crate) fn take(&mut self) -> (c: Self)
        ensures
            c == *old(self),
    {
        let mut c = KvCache {
            k: Vec::new(),
            v: Vec::new(),
            len: 0,
            capacity: 0,
            kv_dim: 0,
            n_layer: 0,
        };
        std::mem::swap(&mut c, self);
        c
    }

    /// Positions currently held.
    pub fn len(&self) -> (n: usize)
        ensures
            n == self@.len,
    {
        self.len
    }

    /// Whether no position is held.
    pub fn is_empty(&self) -> (b: bool)
        ensures
            b == (self@.len == 0),
    {
        self.len == 0
    }

    /// Positions there is room for.
    pub fn capacity(&self) -> (n: usize)
        ensures
            n == self@.capacity,
    {
        self.capacity
    }

    /// Layers.
    pub fn n_layer(&self) -> (n: usize)
        ensures
            n == self@.n_layer,
    {
        self.n_layer
    }

    /// Bytes held by both tensors, at four per element.
    pub fn bytes(&self) -> (n: usize)
        requires
            (self@.k.len() + self@.v.len()) * 4 <= usize::MAX,
        ensures
            n == (self@.k.len() + self@.v.len()) * 4,
    {
        (self.k.len() + self.v.len()) * 4
    }

    /// Drop all cached positions without freeing the allocation, so a new
    /// sequence reuses the same memory.
    pub fn clear(&mut self)
        ensures
            final(self)@ == (CacheView { len: 0, ..old(self)@ }),
    {
        self.len = 0;
    }

    fn offset(&self, layer: usize, pos: usize) -> (at: usize)
        requires
            self@.wf(),
            layer < self@.n_layer,
            pos < self@.capacity,
            self@.n_layer * self@.capacity <= usize::MAX,
        ensures
            at == self@.offset(layer as nat, pos as nat),
            at + self@.kv_dim <= self@.k.len(),
            at + self@.kv_dim <= self@.v.len(),
    {
        proof {
            lemma_row_fits(
                layer as nat,
                pos as nat,
                self@.n_layer,
                self@.capacity,
                self@.kv_dim,
            );
            assert(self.k.len() == self.k@.len());
        }
        (layer * self.capacity + pos) * self.kv_dim
    }

    /// Mutable slices for writing one position's keys and values.
    pub fn slot_mut(&mut self, layer: usize, pos: usize) -> (r: (&mut [T], &mut [T]))
        requires
            old(self)@.wf(),
            layer < old(self)@.n_layer,
            pos < old(self)@.capacity,
            old(self)@.n_layer * old(self)@.capacity <= usize::MAX,
        ensures
            r.0@ == old(self)@.row(old(self)@.k, layer as nat, pos as nat),
            r.1@ == old(self)@.row(old(self)@.v, layer as nat, pos as nat),
            final(self)@.k == old(self)@.with_row(
                old(self)@.k,
                layer as nat,
                pos as nat,
                final(r.0)@,
            ),
            final(self)@.v == old(self)@.with_row(
                old(self)@.v,
                layer as nat,
                pos as nat,
                final(r.1)@,
            ),
            final(self)@.len == old(self)@.len,
            final(self)@.capacity == old(self)@.capacity,
            final(self)@.kv_dim == old(self)@.kv_dim,
            final(self)@.n_layer == old(self)@.n_layer,
            final(r.0)@.len() == r.0@.len() && final(r.1)@.len() == r.1@.len()
                ==> final(self)@.wf(),
    {
        let start: usize = self.offset(layer, pos);
        let width: usize = self.kv_dim;
        let (_, k_rest) = self.k.as_mut_slice().split_at_mut(start);
        let (k_row, _) = k_rest.split_at_mut(width);
        let (_, v_rest) = self.v.as_mut_slice().split_at_mut(start);
        let (v_row, _) = v_rest.split_at_mut(width);
        (k_row, v_row)
    }

    /// One cached head's key vector at a position.
    pub fn key(&self, layer: usize, pos: usize, head: usize, head_dim: usize) -> (r: &[T])
        requires
            self@.wf(),
            layer < self@.n_layer,
            pos < self@.capacity,
            self@.n_layer * self@.capacity <= usize::MAX,
            head * head_dim + head_dim <= self@.kv_dim,
        ensures
            r@ == self@.head(self@.k, layer as nat, pos as nat, head as nat, head_dim as nat),
    {
        let row: usize = self.offset(layer, pos);
        proof {
            assert(self.k.len() == self.k@.len());
            assert(head * head_dim >= 0) by (nonlinear_arith);
        }
        let base: usize = row + head * head_dim;
        &self.k[base..base + head_dim]
    }

    /// One cached head's value vector at a position.
    pub fn value(&self, layer: usize, pos: usize, head: usize, head_dim: usize) -> (r: &[T])
        requires
            self@.wf(),
            layer < self@.n_layer,
            pos < self@.capacity,
            self@.n_layer * self@.capacity <= usize::MAX,
            head * head_dim + head_dim <= self@.kv_dim,
        ensures
            r@ == self@.head(self@.v, layer as nat, pos as nat, head as nat, head_dim as nat),
    {
        let row: usize = self.offset(layer, pos);
        proof {
            assert(self.v.len() == self.v@.len());
            assert(head * head_dim >= 0) by (nonlinear_arith);
        }
        let base: usize = row + head * head_dim;
        &self.v[base..base + head_dim]
    }

    /// Record that `n` more positions are now valid.
    ///
    /// Called once per token after every layer has written its slot, so a
    /// partially filled position is never visible to attention.
    pub fn advance(&mut self, n: usize) -> (r: Result<(), CacheFull>)
        requires
            old(self)@.wf(),
            old(self)@.len + n <= usize::MAX,
        ensures
            final(self)@.wf(),
            r is Ok <==> old(self)@.len + n <= old(self)@.capacity,
            match r {
                Ok(()) => final(self)@ == (CacheView {
                    len: old(self)@.len + n as nat,
                    ..old(self)@
                }),
                Err(e) => final(self)@ == old(self)@ && e == (CacheFull {
                    len: old(self)@.len as usize,
                    n,
                    capacity: old(self)@.capacity as usize,
                }),
            },
    {
        if self.len + n > self.capacity {
            return Err(CacheFull { len: self.len, n, capacity: self.capacity });
        }
        self.len += n;
        Ok(())
    }
}

/// Rows of different (layer, position) pairs do not overlap, and every row lies
/// inside the tensor.
pub proof fn law_rows_are_disjoint<T>(c: CacheView<T>, x: (nat, nat), y: (nat, nat))
    requires
        x.0 < c.n_layer && x.1 < c.capacity,
        y.0 < c.n_layer && y.1 < c.capacity,
        x != y,
    ensures
        c.offset(x.0, x.1) + c.kv_dim <= c.total(),
        c.offset(x.0, x.1) + c.kv_dim <= c.offset(y.0, y.1) || c.offset(y.0, y.1) + c.kv_dim
            <= c.offset(x.0, x.1),
{
    lemma_row_fits(x.0, x.1, c.n_layer, c.capacity, c.kv_dim);
    let i = x.0 * c.capacity + x.1;
    let j = y.0 * c.capacity + y.1;
    if x.0 < y.0 {
        assert(x.0 * c.capacity + c.capacity <= y.0 * c.capacity) by (nonlinear_arith)
            requires
                x.0 + 1 <= y.0,
        ;
    } else if y.0 < x.0 {
        assert(y.0 * c.capacity + c.capacity <= x.0 * c.capacity) by (nonlinear_arith)
            requires
                y.0 + 1 <= x.0,
        ;
    }
    if i < j {
        assert(i * c.kv_dim + c.kv_dim <= j * c.kv_dim) by (nonlinear_arith)
            requires
                i + 1 <= j,
        ;
    } else {
        assert(j * c.kv_dim + c.kv_dim <= i * c.kv_dim) by (nonlinear_arith)
            requires
                j + 1 <= i,
        ;
    }
}

/// A position reads back what was last written to it, and no write to another
/// position or layer changes it.
pub proof fn law_reads_see_writes<T>(
    c: CacheView<T>,
    t: Seq<T>,
    written: (nat, nat),
    row: Seq<T>,
    read: (nat, nat),
)
    requires
        t.len() == c.total(),
        row.len() == c.kv_dim,
        written.0 < c.n_layer && written.1 < c.capacity,
        read.0 < c.n_layer && read.1 < c.capacity,
    ensures
        c.row(c.with_row(t, written.0, written.1, row), read.0, read.1) == if read == written {
            row
        } else {
            c.row(t, read.0, read.1)
        },
{
    lemma_row_fits(read.0, read.1, c.n_layer, c.capacity, c.kv_dim);
    let after = c.row(c.with_row(t, written.0, written.1, row), read.0, read.1);
    if read == written {
        assert(after =~= row);
    } else {
        law_rows_are_disjoint(c, written, read);
        assert(after =~= c.row(t, read.0, read.1));
    }
}

/// The heads of a position's row lie in it one after the other: element `i` of
/// head `h` is element `h * head_dim + i` of the row.
pub proof fn law_heads_are_parts_of_rows<T>(
    c: CacheView<T>,
    t: Seq<T>,
    layer: nat,
    pos: nat,
    h: nat,
    head_dim: nat,
    i: int,
)
    requires
        t.len() == c.total(),
        layer < c.n_layer,
        pos < c.capacity,
        h * head_dim + head_dim <= c.kv_dim,
        0 <= i < head_dim,
    ensures
        c.head(t, layer, pos, h, head_dim).len() == head_dim,
        c.head(t, layer, pos, h, head_dim)[i] == c.row(t, layer, pos)[(h * head_dim) as int + i],
{
    let row = layer * c.capacity + pos;
    assert(row + 1 <= c.n_layer * c.capacity) by (nonlinear_arith)
        requires
            layer < c.n_layer,
            pos < c.capacity,
            row == layer * c.capacity + pos,
    ;
    assert(row * c.kv_dim + c.kv_dim <= c.n_layer * c.capacity * c.kv_dim) by (nonlinear_arith)
        requires
            row + 1 <= c.n_layer * c.capacity,
    ;
}

} // verus!
