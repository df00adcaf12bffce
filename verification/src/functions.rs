//! Mathematical functions behind function values.
use vstd::prelude::*;

verus! {

/// The one result of a deterministic function of one argument.
pub open spec fn value_of<A, R, F: Fn(A) -> R>(f: F, x: A) -> R {
    choose|r: R| call_ensures(f, (x,), r)
}

/// `f` accepts every argument and gives one result for one argument.
pub open spec fn is_function<A, R, F: Fn(A) -> R>(f: F) -> bool {
    &&& forall|x: A| #[trigger] call_requires(f, (x,))
    &&& forall|x: A, r: R, s: R| #[trigger]
        call_ensures(f, (x,), r) && #[trigger] call_ensures(f, (x,), s) ==> r == s
}

/// The one result of a deterministic function of two arguments.
pub open spec fn value_of2<A, B, R, F: Fn(A, B) -> R>(f: F, x: A, y: B) -> R {
    choose|r: R| call_ensures(f, (x, y), r)
}

/// `f` accepts every pair of arguments and gives one result for one pair.
pub open spec fn is_function2<A, B, R, F: Fn(A, B) -> R>(f: F) -> bool {
    &&& forall|x: A, y: B| #[trigger] call_requires(f, (x, y))
    &&& forall|x: A, y: B, r: R, s: R| #[trigger]
        call_ensures(f, (x, y), r) && #[trigger] call_ensures(f, (x, y), s) ==> r == s
}

/// `f` accepts a number below `n` with one below `m`, and gives one result for
/// one such pair.
pub open spec fn is_function_within<R, F: Fn(usize, usize) -> R>(f: F, n: int, m: int) -> bool {
    &&& forall|x: usize, y: usize| x < n && y < m ==> #[trigger] call_requires(f, (x, y))
    &&& forall|x: usize, y: usize, r: R, s: R|
        x < n && y < m && #[trigger] call_ensures(f, (x, y), r) && #[trigger] call_ensures(
            f,
            (x, y),
            s,
        ) ==> r == s
}

/// The same for a second number of thirty-two bits.
pub open spec fn is_lookup_within<R, F: Fn(usize, u32) -> R>(f: F, n: int, m: int) -> bool {
    &&& forall|x: usize, y: u32| x < n && y < m ==> #[trigger] call_requires(f, (x, y))
    &&& forall|x: usize, y: u32, r: R, s: R|
        x < n && y < m && #[trigger] call_ensures(f, (x, y), r) && #[trigger] call_ensures(
            f,
            (x, y),
            s,
        ) ==> r == s
}

/// `f` accepts every number with one up to `limit`, and gives one result for
/// one such pair.
pub open spec fn is_function_up_to<R, F: Fn(u32, u32) -> R>(f: F, limit: int) -> bool {
    &&& forall|x: u32, y: u32| y <= limit ==> #[trigger] call_requires(f, (x, y))
    &&& forall|x: u32, y: u32, r: R, s: R|
        y <= limit && #[trigger] call_ensures(f, (x, y), r) && #[trigger] call_ensures(
            f,
            (x, y),
            s,
        ) ==> r == s
}

/// `f` accepts every number below `n` and gives one result for one number.
pub open spec fn is_function_below<R, F: Fn(u32) -> R>(f: F, n: int) -> bool {
    &&& forall|x: u32| x < n ==> #[trigger] call_requires(f, (x,))
    &&& forall|x: u32, r: R, s: R|
        x < n && #[trigger] call_ensures(f, (x,), r) && #[trigger] call_ensures(f, (x,), s)
            ==> r == s
}

/// `f` accepts two numbers below `n` and gives one result for one such pair.
pub open spec fn is_function2_below<R, F: Fn(u32, u32) -> R>(f: F, n: int) -> bool {
    &&& forall|x: u32, y: u32| x < n && y < n ==> #[trigger] call_requires(f, (x, y))
    &&& forall|x: u32, y: u32, r: R, s: R|
        x < n && y < n && #[trigger] call_ensures(f, (x, y), r) && #[trigger] call_ensures(
            f,
            (x, y),
            s,
        ) ==> r == s
}

/// All numbers of `list` are below `n`.
pub open spec fn all_below(list: Seq<u32>, n: int) -> bool {
    forall|x: u32| #[trigger] list.contains(x) ==> x < n
}

/// The one result of a deterministic function of three arguments, the last two
/// of one type.
pub open spec fn value_of3<A, B, R, F: Fn(A, &B, &B) -> R>(f: F, x: A, y: B, z: B) -> R {
    choose|r: R| call_ensures(f, (x, &y, &z), r)
}

/// `f` accepts a number below `n` with all other arguments, and gives one result
/// for the same arguments.
pub open spec fn is_function3_below<B, R, F: Fn(u32, &B, &B) -> R>(f: F, n: int) -> bool {
    &&& forall|x: u32, y: &B, z: &B| x < n ==> #[trigger] call_requires(f, (x, y, z))
    &&& forall|x: u32, y: &B, z: &B, r: R, s: R|
        x < n && #[trigger] call_ensures(f, (x, y, z), r) && #[trigger] call_ensures(
            f,
            (x, y, z),
            s,
        ) ==> r == s
}

/// The one result of a deterministic function on the contents of a slice.
pub open spec fn value_on<T, R, F: Fn(&[T]) -> R>(f: F, list: Seq<T>) -> R {
    choose|r: R| gives(f, list, r)
}

/// `f` may give `r` for a slice that holds `list`.
pub open spec fn gives<T, R, F: Fn(&[T]) -> R>(f: F, list: Seq<T>, r: R) -> bool {
    exists|x: &[T]| x@ == list && #[trigger] call_ensures(f, (x,), r)
}

/// `f` accepts every slice and gives one result for slices of one content.
pub open spec fn is_slice_function<T, R, F: Fn(&[T]) -> R>(f: F) -> bool {
    &&& forall|x: &[T]| #[trigger] call_requires(f, (x,))
    &&& forall|x: &[T], y: &[T], r: R, s: R|
        #![trigger call_ensures(f, (x,), r), call_ensures(f, (y,), s)]
        x@ == y@ && call_ensures(f, (x,), r) && call_ensures(f, (y,), s) ==> r == s
}

/// What a deterministic function on slices gave is its value.
pub proof fn lemma_value_on<T, R, F: Fn(&[T]) -> R>(f: F, x: &[T], r: R)
    requires
        is_slice_function(f),
        call_ensures(f, (x,), r),
    ensures
        value_on(f, x@) == r,
{
    assert(gives(f, x@, r));
    let s = value_on(f, x@);
    assert(gives(f, x@, s));
    let y = choose|y: &[T]| y@ == x@ && #[trigger] call_ensures(f, (y,), s);
    assert(call_ensures(f, (y,), s));
}

/// `f` accepts slices of numbers below `n` and gives one result for such slices
/// of one content.
pub open spec fn is_slice_function_below<R, F: Fn(&[u32]) -> R>(f: F, n: int) -> bool {
    &&& forall|x: &[u32]| all_below(x@, n) ==> #[trigger] call_requires(f, (x,))
    &&& forall|x: &[u32], y: &[u32], r: R, s: R|
        #![trigger call_ensures(f, (x,), r), call_ensures(f, (y,), s)]
        x@ == y@ && all_below(x@, n) && call_ensures(f, (x,), r) && call_ensures(f, (y,), s)
            ==> r == s
}

/// What such a function gave is its value.
pub proof fn lemma_value_on_below<R, F: Fn(&[u32]) -> R>(f: F, n: int, x: &[u32], r: R)
    requires
        is_slice_function_below(f, n),
        all_below(x@, n),
        call_ensures(f, (x,), r),
    ensures
        value_on(f, x@) == r,
{
    assert(gives(f, x@, r));
    let s = value_on(f, x@);
    assert(gives(f, x@, s));
    let y = choose|y: &[u32]| y@ == x@ && #[trigger] call_ensures(f, (y,), s);
    assert(call_ensures(f, (y,), s));
}

/// `f` accepts slices of at least `n` elements and gives one result for such
/// slices of one content.
pub open spec fn is_slice_function_from<T, R, F: Fn(&[T]) -> R>(f: F, n: int) -> bool {
    &&& forall|x: &[T]| n <= x@.len() ==> #[trigger] call_requires(f, (x,))
    &&& forall|x: &[T], y: &[T], r: R, s: R|
        #![trigger call_ensures(f, (x,), r), call_ensures(f, (y,), s)]
        x@ == y@ && n <= x@.len() && call_ensures(f, (x,), r) && call_ensures(f, (y,), s)
            ==> r == s
}

/// What such a function gave is its value.
pub proof fn lemma_value_on_from<T, R, F: Fn(&[T]) -> R>(f: F, n: int, x: &[T], r: R)
    requires
        is_slice_function_from(f, n),
        n <= x@.len(),
        call_ensures(f, (x,), r),
    ensures
        value_on(f, x@) == r,
{
    assert(gives(f, x@, r));
    let s = value_on(f, x@);
    assert(gives(f, x@, s));
    let y = choose|y: &[T]| y@ == x@ && #[trigger] call_ensures(f, (y,), s);
    assert(call_ensures(f, (y,), s));
}

/// `f` accepts slices of whole rows of `d` elements, gives a list of the same
/// length, and gives one list for slices of one content.
pub open spec fn is_list_function<T, F: Fn(&[T]) -> Vec<T>>(f: F, d: int) -> bool {
    &&& forall|x: &[T]| x@.len() as int % d == 0 ==> #[trigger] call_requires(f, (x,))
    &&& forall|x: &[T], r: Vec<T>|
        x@.len() as int % d == 0 && #[trigger] call_ensures(f, (x,), r) ==> r@.len() == x@.len()
    &&& forall|x: &[T], y: &[T], r: Vec<T>, s: Vec<T>|
        #![trigger call_ensures(f, (x,), r), call_ensures(f, (y,), s)]
        x@ == y@ && x@.len() as int % d == 0 && call_ensures(f, (x,), r) && call_ensures(f, (y,), s)
            ==> r@ == s@
}

/// The one list that a deterministic function gives for the contents of a
/// slice.
pub open spec fn list_on<T, F: Fn(&[T]) -> Vec<T>>(f: F, list: Seq<T>) -> Seq<T> {
    value_on(f, list)@
}

/// The list that a deterministic function gave is its value.
pub proof fn lemma_list_on<T, F: Fn(&[T]) -> Vec<T>>(f: F, d: int, x: &[T], r: Vec<T>)
    requires
        is_list_function(f, d),
        x@.len() as int % d == 0,
        call_ensures(f, (x,), r),
    ensures
        list_on(f, x@) == r@,
{
    assert(gives(f, x@, r));
    let s = value_on(f, x@);
    assert(gives(f, x@, s));
    let y = choose|y: &[T]| y@ == x@ && #[trigger] call_ensures(f, (y,), s);
    assert(call_ensures(f, (y,), s));
}

/// `f` may give `r` for `acc` and two slices that hold `a` and `b`.
pub open spec fn gives2<A, T, R, F: Fn(A, &[T], &[T]) -> R>(
    f: F,
    acc: A,
    a: Seq<T>,
    b: Seq<T>,
    r: R,
) -> bool {
    exists|x: &[T], y: &[T]|
        x@ == a && y@ == b && #[trigger] call_ensures(f, (acc, x, y), r)
}

/// The one result of a deterministic function on the contents of two slices.
pub open spec fn value_on2<A, T, R, F: Fn(A, &[T], &[T]) -> R>(
    f: F,
    acc: A,
    a: Seq<T>,
    b: Seq<T>,
) -> R {
    choose|r: R| gives2(f, acc, a, b, r)
}

/// `f` accepts two slices of one length and gives one result for such slices of
/// one content.
pub open spec fn is_slice_function2<A, T, R, F: Fn(A, &[T], &[T]) -> R>(f: F) -> bool {
    &&& forall|acc: A, x: &[T], y: &[T]|
        x@.len() == y@.len() ==> #[trigger] call_requires(f, (acc, x, y))
    &&& forall|acc: A, x: &[T], y: &[T], u: &[T], v: &[T], r: R, s: R|
        #![trigger call_ensures(f, (acc, x, y), r), call_ensures(f, (acc, u, v), s)]
        x@ == u@ && y@ == v@ && x@.len() == y@.len() && call_ensures(f, (acc, x, y), r)
            && call_ensures(f, (acc, u, v), s) ==> r == s
}

/// What a deterministic function on two slices gave is its value.
pub proof fn lemma_value_on2<A, T, R, F: Fn(A, &[T], &[T]) -> R>(
    f: F,
    acc: A,
    x: &[T],
    y: &[T],
    r: R,
)
    requires
        is_slice_function2(f),
        x@.len() == y@.len(),
        call_ensures(f, (acc, x, y), r),
    ensures
        value_on2(f, acc, x@, y@) == r,
{
    assert(gives2(f, acc, x@, y@, r));
    let s = value_on2(f, acc, x@, y@);
    assert(gives2(f, acc, x@, y@, s));
    let (u, v) = choose|u: &[T], v: &[T]|
        u@ == x@ && v@ == y@ && #[trigger] call_ensures(f, (acc, u, v), s);
    assert(call_ensures(f, (acc, u, v), s));
}

} // verus!
