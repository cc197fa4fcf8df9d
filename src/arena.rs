use vstd::prelude::*;
use vstd::arithmetic::div_mod::{
    lemma_add_mod_noop, lemma_fundamental_div_mod, lemma_mod_add_multiples_vanish, lemma_mod_bound,
    lemma_mod_mod, lemma_mod_multiples_basic, lemma_mod_self_0, lemma_mod_twice, lemma_small_mod,
};

verus! {

/// True of the powers of two: 1, 2, 4, ...
pub open spec fn is_pow2(n: nat) -> bool
    decreases n,
{
    if n == 0 {
        false
    } else if n == 1 {
        true
    } else {
        n % 2 == 0 && is_pow2(n / 2)
    }
}

/// The rule on a `(size, align)` pair that a memory layout obeys: the alignment
/// is a power of two and the size, rounded up to it, fits in an `isize`.
pub open spec fn layout_ok(size: usize, align: usize) -> bool {
    &&& is_pow2(align as nat)
    &&& size + align - 1 <= isize::MAX
}

/// True when every pair of `ls` is a valid layout.
pub open spec fn layouts_ok(ls: Seq<(usize, usize)>) -> bool {
    forall|i: int| 0 <= i < ls.len() ==> layout_ok(#[trigger] ls[i].0, ls[i].1)
}

/// Bytes needed to move the address `x` up to the next multiple of `a`.
pub open spec fn pad(x: int, a: int) -> int {
    (a - x % a) % a
}

/// One step of the space computation. The state is `(res, known, curr)`: the bytes
/// reserved so far, the largest alignment seen so far, and the position of the
/// cursor modulo that alignment.
pub open spec fn bound_step(st: (int, int, int), size: int, align: int) -> (int, int, int) {
    let (res, known, curr) = st;
    if align > known {
        (res + align - known + (known - curr) % known + size, align, size % align)
    } else {
        let padding = align - ((curr + align - 1) % align) - 1;
        (res + padding + size, known, ((curr + padding) % known + size) % known)
    }
}

/// The state of the space computation after the layouts `ls`, taken left to right.
pub open spec fn bound_state(ls: Seq<(usize, usize)>) -> (int, int, int)
    decreases ls.len(),
{
    if ls.len() == 0 {
        (0, 1, 0)
    } else {
        bound_step(bound_state(ls.drop_last()), ls.last().0 as int, ls.last().1 as int)
    }
}

/// The number of bytes that an arena for `ls` reserves: enough to place every
/// layout of `ls` one after the other, whatever the alignment of the arena's start.
pub open spec fn space_bound(ls: Seq<(usize, usize)>) -> int {
    bound_state(ls).0
}

/// The address just past the last slot, when the layouts `ls` are placed from
/// `base` left to right, each at the first address after its predecessor that
/// satisfies its alignment.
pub open spec fn cursor_after(base: int, ls: Seq<(usize, usize)>) -> int
    decreases ls.len(),
{
    if ls.len() == 0 {
        base
    } else {
        let c = cursor_after(base, ls.drop_last());
        c + pad(c, ls.last().1 as int) + ls.last().0
    }
}

/// The address of slot `i` when `ls` is placed from `base`.
pub open spec fn slot_addr(base: int, ls: Seq<(usize, usize)>, i: int) -> int {
    let c = cursor_after(base, ls.take(i));
    c + pad(c, ls[i].1 as int)
}

/// The offset of slot `i` from the start `base` of the arena.
pub open spec fn slot_offset(base: int, ls: Seq<(usize, usize)>, i: int) -> int {
    slot_addr(base, ls, i) - base
}

/// The size and alignment of a value that an arena holds.
#[derive(Clone, Copy, Debug)]
pub struct Layout {
    size: usize,
    align: usize,
}

impl View for Layout {
    type V = (usize, usize);

    closed spec fn view(&self) -> (usize, usize) {
        (self.size, self.align)
    }
}

impl Layout {
    #[verifier::type_invariant]
    spec fn inv(self) -> bool {
        layout_ok(self.size, self.align)
    }

    /// A layout of `size` bytes aligned to `align`; `None` unless `align` is a power
    /// of two and `size` rounded up to it fits in an `isize`.
    pub fn from_size_align(size: usize, align: usize) -> (r: Option<Layout>)
        ensures
            r.is_some() <==> layout_ok(size, align),
            r matches Some(l) ==> l@ == (size, align),
    {
        let mut a: usize = align;
        let mut pow2: bool = a != 0;
        while a > 1 && pow2
            invariant
                a <= align,
                pow2 ==> a >= 1 && (is_pow2(align as nat) <==> is_pow2(a as nat)),
                !pow2 ==> !is_pow2(align as nat),
            decreases a + if pow2 { 1int } else { 0int },
        {
            if a % 2 != 0 {
                pow2 = false;
            } else {
                a = a / 2;
            }
        }
        proof {
            reveal_with_fuel(is_pow2, 2);
            if pow2 {
                assert(a == 1);
                assert(is_pow2(a as nat));
            }
        }
        if !pow2 || align - 1 > isize::MAX as usize || size > isize::MAX as usize - (align - 1) {
            None
        } else {
            Some(Layout { size, align })
        }
    }

    pub fn size(&self) -> (r: usize)
        ensures
            r == self@.0,
            layout_ok(self@.0, self@.1),
    {
        proof {
            use_type_invariant(self);
        }
        self.size
    }

    pub fn align(&self) -> (r: usize)
        ensures
            r == self@.1,
            layout_ok(self@.0, self@.1),
    {
        proof {
            use_type_invariant(self);
        }
        self.align
    }
}

proof fn lemma_pow2_pos(n: nat)
    requires
        is_pow2(n),
    ensures
        n >= 1,
{
}

proof fn lemma_pow2_divides(a: nat, b: nat)
    requires
        is_pow2(a),
        is_pow2(b),
        a <= b,
    ensures
        b % a == 0,
    decreases b,
{
    if a == 1 {
        assert(b % 1 == 0) by (nonlinear_arith);
    } else {
        assert(b != 1);
        lemma_pow2_divides(a / 2, b / 2);
        let q = (b / 2) / (a / 2);
        lemma_fundamental_div_mod((b / 2) as int, (a / 2) as int);
        assert(b / 2 == (a / 2) * q);
        assert(b == a * q) by (nonlinear_arith)
            requires
                b / 2 == (a / 2) * q,
                b % 2 == 0,
                a % 2 == 0,
        ;
        assert((a * q) % a == 0) by (nonlinear_arith)
            requires
                a >= 2,
        ;
    }
}

/// What the space computation keeps true: the largest alignment is a power of
/// two that every alignment seen so far is at most, and the cursor position lies
/// below it.
proof fn lemma_state(ls: Seq<(usize, usize)>)
    requires
        layouts_ok(ls),
    ensures
        is_pow2(bound_state(ls).1 as nat),
        1 <= bound_state(ls).1 <= isize::MAX + 1,
        0 <= bound_state(ls).2 < bound_state(ls).1,
        0 <= bound_state(ls).0,
        forall|i: int| 0 <= i < ls.len() ==> #[trigger] ls[i].1 <= bound_state(ls).1,
    decreases ls.len(),
{
    reveal_with_fuel(is_pow2, 2);
    if ls.len() > 0 {
        let prev = ls.drop_last();
        assert forall|i: int| 0 <= i < prev.len() implies layout_ok(
            #[trigger] prev[i].0,
            prev[i].1,
        ) by {
            assert(prev[i] == ls[i]);
        }
        lemma_state(prev);
        let (res, known, curr) = bound_state(prev);
        let size = ls.last().0 as int;
        let align = ls.last().1 as int;
        assert(layout_ok(ls[ls.len() - 1].0, ls[ls.len() - 1].1));
        lemma_pow2_pos(align as nat);
        lemma_mod_bound(size, align);
        lemma_mod_bound(known - curr, known);
        lemma_mod_bound(curr + align - 1, align);
        if align <= known {
            let padding = align - ((curr + align - 1) % align) - 1;
            lemma_mod_bound(curr + padding, known);
            lemma_mod_bound((curr + padding) % known + size, known);
        }
        assert forall|i: int| 0 <= i < ls.len() implies #[trigger] ls[i].1 <= bound_state(
            ls,
        ).1 by {
            if i < ls.len() - 1 {
                assert(prev[i] == ls[i]);
            }
        }
    }
}

/// The bytes reserved never shrink as layouts are added.
proof fn lemma_bound_mono(ls: Seq<(usize, usize)>, i: int)
    requires
        layouts_ok(ls),
        0 <= i <= ls.len(),
    ensures
        space_bound(ls.take(i)) <= space_bound(ls),
    decreases ls.len(),
{
    if i < ls.len() {
        let prev = ls.drop_last();
        assert forall|j: int| 0 <= j < prev.len() implies layout_ok(
            #[trigger] prev[j].0,
            prev[j].1,
        ) by {
            assert(prev[j] == ls[j]);
        }
        lemma_bound_mono(prev, i);
        assert(prev.take(i) =~= ls.take(i));
        lemma_state(prev);
        let (res, known, curr) = bound_state(prev);
        let align = ls.last().1 as int;
        assert(layout_ok(ls[ls.len() - 1].0, ls[ls.len() - 1].1));
        lemma_pow2_pos(align as nat);
        lemma_mod_bound(known - curr, known);
        lemma_mod_bound(curr + align - 1, align);
    } else {
        assert(ls.take(i) =~= ls);
    }
}

/// Bytes that an arena must reserve to hold the layouts `size_align`, given as
/// `(size, align)` pairs in placement order, wherever the arena starts.
pub fn compute_space_bound(size_align: &[(usize, usize)]) -> (r: usize)
    requires
        layouts_ok(size_align@),
        space_bound(size_align@) <= usize::MAX,
    ensures
        r == space_bound(size_align@),
{
    let ghost ls = size_align@;
    let mut res: usize = 0;
    let mut known_align: usize = 1;
    let mut curr_offset: usize = 0;
    let mut i: usize = 0;
    assert(ls.take(0) =~= Seq::<(usize, usize)>::empty());
    while i < size_align.len()
        invariant
            ls == size_align@,
            layouts_ok(ls),
            space_bound(ls) <= usize::MAX,
            0 <= i <= ls.len(),
            bound_state(ls.take(i as int)) == (res as int, known_align as int, curr_offset as int),
        decreases ls.len() - i,
    {
        let (size, align) = size_align[i];
        proof {
            assert(ls.take(i + 1).drop_last() =~= ls.take(i as int));
            assert(ls.take(i + 1).last() == ls[i as int]);
            assert forall|j: int| 0 <= j < ls.take(i + 1).len() implies layout_ok(
                #[trigger] ls.take(i + 1)[j].0,
                ls.take(i + 1)[j].1,
            ) by {
                assert(ls.take(i + 1)[j] == ls[j]);
            }
            assert forall|j: int| 0 <= j < ls.take(i as int).len() implies layout_ok(
                #[trigger] ls.take(i as int)[j].0,
                ls.take(i as int)[j].1,
            ) by {
                assert(ls.take(i as int)[j] == ls[j]);
            }
            lemma_state(ls.take(i as int));
            lemma_bound_mono(ls, i + 1);
            assert(layout_ok(ls[i as int].0, ls[i as int].1));
            lemma_pow2_pos(align as nat);
            lemma_mod_bound(size as int, align as int);
            lemma_mod_bound(known_align - curr_offset, known_align as int);
            lemma_mod_bound(curr_offset + align - 1, align as int);
        }
        if align > known_align {
            res += align - known_align + (known_align - curr_offset) % known_align;
            known_align = align;
            curr_offset = 0;
        } else {
            let padding = align - ((curr_offset + align - 1) % align) - 1;
            res += padding;
            curr_offset = (curr_offset + padding) % known_align;
        }
        res += size;
        curr_offset = (curr_offset + size) % known_align;
        i += 1;
    }
    assert(ls.take(i as int) =~= ls);
    res
}

proof fn lemma_pad(x: int, a: int)
    requires
        a > 0,
    ensures
        0 <= pad(x, a) < a,
        (x + pad(x, a)) % a == 0,
        x % a == 0 ==> pad(x, a) == 0,
        x % a != 0 ==> pad(x, a) == a - x % a,
{
    lemma_mod_bound(x, a);
    lemma_fundamental_div_mod(x, a);
    let q = x / a;
    let r = x % a;
    if r == 0 {
        lemma_mod_self_0(a);
        assert(pad(x, a) == 0);
    } else {
        lemma_small_mod((a - r) as nat, a as nat);
        assert(x + (a - r) == (q + 1) * a) by (nonlinear_arith)
            requires
                x == a * q + r,
        ;
        lemma_mod_multiples_basic(q + 1, a);
    }
}

/// The slot that `pad` picks is the first aligned address at or after `x`.
proof fn lemma_pad_least(x: int, a: int, y: int)
    requires
        a > 0,
        y >= x,
        y % a == 0,
    ensures
        y >= x + pad(x, a),
{
    lemma_pad(x, a);
    lemma_fundamental_div_mod(x, a);
    lemma_fundamental_div_mod(y, a);
    let q = x / a;
    let k = y / a;
    if x % a != 0 {
        lemma_mod_bound(x, a);
        assert(a * k > a * q);
        assert(k > q) by (nonlinear_arith)
            requires
                a * k > a * q,
                a > 0,
        ;
        assert(a * k >= a * (q + 1)) by (nonlinear_arith)
            requires
                k >= q + 1,
                a > 0,
        ;
        assert(x + pad(x, a) == a * (q + 1)) by (nonlinear_arith)
            requires
                x == a * q + x % a,
                pad(x, a) == a - x % a,
        ;
    }
}

/// The padding that the space computation reckons from the cursor's position
/// modulo an alignment is the true padding.
proof fn lemma_pad_formula(c: int, a: int)
    requires
        a > 0,
        c >= 0,
    ensures
        a - ((c + a - 1) % a) - 1 == pad(c, a),
{
    lemma_pad(c, a);
    lemma_mod_bound(c, a);
    let r = c % a;
    lemma_add_mod_noop(c, a - 1, a);
    lemma_small_mod((a - 1) as nat, a as nat);
    lemma_mod_twice(c, a);
    if r == 0 {
        assert((c + a - 1) % a == (a - 1) % a);
    } else {
        assert((r + (a - 1)) % a == r - 1) by {
            lemma_mod_add_multiples_vanish(r - 1, a);
            lemma_small_mod((r - 1) as nat, a as nat);
        }
    }
}

/// Reduction modulo a multiple of `a` keeps the residue modulo `a`.
proof fn lemma_mod_divisor(x: int, k: int, a: int)
    requires
        a > 0,
        k > 0,
        k % a == 0,
    ensures
        (x % k) % a == x % a,
{
    lemma_fundamental_div_mod(k, a);
    let q = k / a;
    assert(k == a * q);
    assert(q > 0) by (nonlinear_arith)
        requires
            k == a * q,
            a > 0,
            k > 0,
    ;
    lemma_mod_mod(x, a, q);
}

/// When the alignment grows from `k` to `align`, the padding before the next slot
/// is at most what the space computation reserves for it.
proof fn lemma_pad_jump(x: int, k: int, align: int)
    requires
        0 < k < align,
        align % k == 0,
        x >= 0,
    ensures
        pad(x, align) <= (k - x % k) % k + align - k,
{
    lemma_pad(x, k);
    lemma_pad(x, align);
    let d = pad(x, k);
    let m = x + d;
    lemma_pad(m, align);
    let y = m + pad(m, align);
    lemma_pad_least(x, align, y);
    let r = m % align;
    lemma_mod_divisor(m, align, k);
    lemma_mod_bound(m, align);
    if r != 0 {
        if r < k {
            lemma_small_mod(r as nat, k as nat);
        }
    }
}

/// The placement from `base` keeps within the space reserved, and the space
/// computation tracks the cursor's position modulo the largest alignment.
proof fn lemma_cursor(base: int, ls: Seq<(usize, usize)>)
    requires
        layouts_ok(ls),
        base >= 0,
    ensures
        cursor_after(base, ls) >= base,
        cursor_after(base, ls) % bound_state(ls).1 == bound_state(ls).2,
        cursor_after(base, ls) - base <= space_bound(ls),
    decreases ls.len(),
{
    lemma_state(ls);
    if ls.len() == 0 {
        assert(base % 1 == 0) by (nonlinear_arith);
    } else {
        let prev = ls.drop_last();
        assert forall|j: int| 0 <= j < prev.len() implies layout_ok(
            #[trigger] prev[j].0,
            prev[j].1,
        ) by {
            assert(prev[j] == ls[j]);
        }
        lemma_cursor(base, prev);
        lemma_state(prev);
        let (res, known, curr) = bound_state(prev);
        let cur = cursor_after(base, prev);
        let size = ls.last().0 as int;
        let align = ls.last().1 as int;
        assert(layout_ok(ls[ls.len() - 1].0, ls[ls.len() - 1].1));
        lemma_pow2_pos(align as nat);
        lemma_pad(cur, align);
        let p = pad(cur, align);
        if align > known {
            lemma_pow2_divides(known as nat, align as nat);
            lemma_pad_jump(cur, known, align);
            lemma_add_mod_noop(cur + p, size, align);
            lemma_mod_twice(size, align);
        } else {
            lemma_pow2_divides(align as nat, known as nat);
            lemma_mod_divisor(cur, known, align);
            lemma_mod_divisor(curr, known, align);
            lemma_pad_formula(curr, align);
            assert(pad(cur, align) == pad(curr, align));
            lemma_add_mod_noop(cur, p, known);
            lemma_add_mod_noop(curr, p, known);
            lemma_small_mod(curr as nat, known as nat);
            lemma_add_mod_noop(cur + p, size, known);
            lemma_add_mod_noop((curr + p) % known, size, known);
            lemma_mod_twice(curr + p, known);
            lemma_mod_twice(cur + p, known);
        }
    }
}

/// Cursors of longer prefixes lie further on.
proof fn lemma_cursor_mono(base: int, ls: Seq<(usize, usize)>, i: int, j: int)
    requires
        layouts_ok(ls),
        0 <= i <= j <= ls.len(),
    ensures
        cursor_after(base, ls.take(i)) <= cursor_after(base, ls.take(j)),
    decreases j - i,
{
    if i < j {
        lemma_cursor_mono(base, ls, i, j - 1);
        assert(ls.take(j).drop_last() =~= ls.take(j - 1));
        assert(layout_ok(ls[j - 1].0, ls[j - 1].1));
        lemma_pow2_pos(ls[j - 1].1 as nat);
        lemma_pad(cursor_after(base, ls.take(j - 1)), ls[j - 1].1 as int);
    }
}

/// Arena packing: placed from any start address `base`, every slot is aligned
/// for its layout, the slots do not overlap and follow one another in order, and
/// each ends within the space that `space_bound` reserves.
pub proof fn lemma_arena_packing(base: int, ls: Seq<(usize, usize)>)
    requires
        layouts_ok(ls),
        base >= 0,
    ensures
        forall|i: int| 0 <= i < ls.len() ==> #[trigger] slot_addr(base, ls, i) % (ls[i].1 as int) == 0,
        forall|i: int, j: int|
            0 <= i < j < ls.len() ==> #[trigger] slot_offset(base, ls, i) + ls[i].0
                <= #[trigger] slot_offset(base, ls, j),
        forall|i: int|
            0 <= i < ls.len() ==> 0 <= #[trigger] slot_offset(base, ls, i) && slot_offset(base, ls, i)
                + ls[i].0 <= space_bound(ls),
{
    assert forall|i: int| 0 <= i < ls.len() implies {
        &&& slot_addr(base, ls, i) % (ls[i].1 as int) == 0
        &&& slot_addr(base, ls, i) + ls[i].0 == cursor_after(base, ls.take(i + 1))
        &&& base <= slot_addr(base, ls, i)
        &&& slot_addr(base, ls, i) <= cursor_after(base, ls.take(i + 1))
        &&& cursor_after(base, ls.take(i + 1)) - base <= space_bound(ls)
    } by {
        assert(layout_ok(ls[i].0, ls[i].1));
        lemma_pow2_pos(ls[i].1 as nat);
        let c = cursor_after(base, ls.take(i));
        lemma_pad(c, ls[i].1 as int);
        assert(ls.take(i + 1).drop_last() =~= ls.take(i));
        assert(ls.take(i + 1).last() == ls[i]);
        let pre = ls.take(i);
        assert forall|j: int| 0 <= j < pre.len() implies layout_ok(
            #[trigger] pre[j].0,
            pre[j].1,
        ) by {
            assert(pre[j] == ls[j]);
        }
        lemma_cursor(base, pre);
        let pre1 = ls.take(i + 1);
        assert forall|j: int| 0 <= j < pre1.len() implies layout_ok(
            #[trigger] pre1[j].0,
            pre1[j].1,
        ) by {
            assert(pre1[j] == ls[j]);
        }
        lemma_cursor(base, pre1);
        lemma_bound_mono(ls, i + 1);
    }
    assert forall|i: int, j: int| 0 <= i < j < ls.len() implies #[trigger] slot_offset(base, ls, i)
        + ls[i].0 <= #[trigger] slot_offset(base, ls, j) by {
        lemma_cursor_mono(base, ls, i + 1, j);
        assert(layout_ok(ls[j].0, ls[j].1));
        lemma_pow2_pos(ls[j].1 as nat);
        lemma_pad(cursor_after(base, ls.take(j)), ls[j].1 as int);
    }
}

/// The `(size, align)` pairs of a sequence of layouts.
pub open spec fn pairs(ls: Seq<Layout>) -> Seq<(usize, usize)> {
    ls.map_values(|l: Layout| l@)
}

/// A byte offset into an arena.
#[derive(Clone, Copy, Debug, PartialEq, Eq, Structural, Hash)]
pub struct Offset(pub u32);

/// A span of `len` bytes starting at address `addr`.
#[derive(Clone, Copy, Debug, PartialEq, Eq, Structural)]
pub struct ByteSpan {
    pub addr: usize,
    pub len: usize,
}

/// The `(size, align)` pairs of `layouts`, which are valid layouts.
pub fn layout_pairs(layouts: &[Layout]) -> (r: Vec<(usize, usize)>)
    ensures
        r@ == pairs(layouts@),
        layouts_ok(r@),
{
    let mut r: Vec<(usize, usize)> = Vec::with_capacity(layouts.len());
    let mut i: usize = 0;
    while i < layouts.len()
        invariant
            0 <= i <= layouts@.len(),
            r@ == pairs(layouts@).take(i as int),
            layouts_ok(r@),
        decreases layouts@.len() - i,
    {
        let size = layouts[i].size();
        let align = layouts[i].align();
        r.push((size, align));
        i += 1;
        assert(r@ =~= pairs(layouts@).take(i as int));
    }
    assert(r@ =~= pairs(layouts@));
    r
}

/// Bytes that an arena must reserve to hold `layouts` in order, wherever it starts.
pub fn compute_space_required(layouts: &[Layout]) -> (r: usize)
    requires
        space_bound(pairs(layouts@)) <= usize::MAX,
    ensures
        r == space_bound(pairs(layouts@)),
{
    let size_align = layout_pairs(layouts);
    compute_space_bound(size_align.as_slice())
}

/// The offsets, from `base`, of the slots of `size_align` placed left to right.
fn get_offsets(base: usize, size_align: &[(usize, usize)]) -> (r: Vec<Offset>)
    requires
        layouts_ok(size_align@),
        base + space_bound(size_align@) <= usize::MAX,
        space_bound(size_align@) <= u32::MAX,
    ensures
        r@.len() == size_align@.len(),
        forall|i: int| 0 <= i < r@.len() ==> #[trigger] r@[i].0 == slot_offset(base as int, size_align@, i),
{
    let ghost ls = size_align@;
    let mut res: Vec<Offset> = Vec::with_capacity(size_align.len());
    let mut cursor: usize = base;
    let mut i: usize = 0;
    while i < size_align.len()
        invariant
            ls == size_align@,
            layouts_ok(ls),
            base + space_bound(ls) <= usize::MAX,
            space_bound(ls) <= u32::MAX,
            0 <= i <= ls.len(),
            cursor == cursor_after(base as int, ls.take(i as int)),
            res@.len() == i,
            forall|j: int| 0 <= j < i ==> #[trigger] res@[j].0 == slot_offset(base as int, ls, j),
        decreases ls.len() - i,
    {
        let (size, align) = size_align[i];
        proof {
            lemma_arena_packing(base as int, ls);
            assert(slot_offset(base as int, ls, i as int) + ls[i as int].0 <= space_bound(ls));
            assert(ls.take(i + 1).drop_last() =~= ls.take(i as int));
            assert(layout_ok(ls[i as int].0, ls[i as int].1));
            lemma_pow2_pos(align as nat);
            lemma_pad(cursor as int, align as int);
            lemma_mod_bound(cursor as int, align as int);
        }
        let addr = cursor + (align - cursor % align) % align;
        res.push(Offset((addr - base) as u32));
        cursor = addr + size;
        i += 1;
    }
    res
}

/// A contiguous region of `capacity` bytes at address `base` that holds the
/// slots of one context. The region never moves: nothing changes its start once
/// the arena is made.
pub struct Arena {
    base: usize,
    capacity: usize,
}

impl Arena {
    #[verifier::type_invariant]
    spec fn inv(self) -> bool {
        &&& self.base + self.capacity <= usize::MAX
        &&& self.capacity <= u32::MAX
    }

    pub closed spec fn spec_base(&self) -> nat {
        self.base as nat
    }

    pub closed spec fn spec_capacity(&self) -> nat {
        self.capacity as nat
    }

    /// The arena for `layouts` in a region starting at `base`, which holds
    /// `compute_space_required(layouts)` bytes; with the offset of each slot.
    pub fn from_layouts(base: usize, layouts: &[Layout]) -> (r: (Arena, Vec<Offset>))
        requires
            base + space_bound(pairs(layouts@)) <= usize::MAX,
            space_bound(pairs(layouts@)) <= u32::MAX,
        ensures
            r.0.spec_base() == base,
            r.0.spec_capacity() == space_bound(pairs(layouts@)),
            r.1@.len() == layouts@.len(),
            forall|i: int|
                0 <= i < r.1@.len() ==> #[trigger] r.1@[i].0 == slot_offset(
                    base as int,
                    pairs(layouts@),
                    i,
                ),
    {
        let size_align = layout_pairs(layouts);
        let capacity = compute_space_bound(size_align.as_slice());
        let offsets = get_offsets(base, size_align.as_slice());
        (Arena { base, capacity }, offsets)
    }

    pub fn capacity(&self) -> (r: usize)
        ensures
            r == self.spec_capacity(),
    {
        self.capacity
    }

    pub fn base(&self) -> (r: usize)
        ensures
            r == self.spec_base(),
    {
        self.base
    }

    /// The bytes of a slot of `layout` at `offset`; `None` unless the slot is
    /// aligned for `layout` and lies within the arena.
    pub fn at_offset(&self, offset: Offset, layout: &Layout) -> (r: Option<ByteSpan>)
        ensures
            r.is_some() <==> ((self.spec_base() + offset.0) % (layout@.1 as int) == 0
                && offset.0 + layout@.0 <= self.spec_capacity()),
            r matches Some(span) ==> span.addr == self.spec_base() + offset.0 && span.len
                == layout@.0,
    {
        let size = layout.size();
        let align = layout.align();
        proof {
            lemma_pow2_pos(align as nat);
            use_type_invariant(self);
        }
        let off = offset.0 as usize;
        if off > self.capacity || size > self.capacity - off {
            return None;
        }
        let addr = self.base + off;
        if addr % align != 0 {
            None
        } else {
            Some(ByteSpan { addr, len: size })
        }
    }

    /// The address of the slot at `offset`.
    pub fn raw_offset(&self, offset: Offset) -> (r: usize)
        requires
            offset.0 <= self.spec_capacity(),
        ensures
            r == self.spec_base() + offset.0,
    {
        proof {
            use_type_invariant(self);
        }
        self.base + offset.0 as usize
    }
}

} // verus!
