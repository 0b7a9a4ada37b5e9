//! Bounded structural validation of SQLite pages before records are read.
//!
//! A page may only be used in the role that an already validated page gave it:
//! a b-tree node, or one link of a record's overflow chain.
use crate::bytes::{be16, be32, read_be16, read_be32, same_bytes};
use crate::error::{corrupt, exhausted, outcome, ErrorView, RuntimeError};
use std::collections::BTreeMap;
use vstd::prelude::*;

verus! {

pub const PAGE: usize = 4096;

/// What a page is used for, and which page and cell said so.
#[derive(Clone, Copy, Debug, PartialEq, Eq, Structural)]
pub enum Role {
    Btree { parent: u64, slot: usize, root: bool, schema_tree: bool },
    Overflow { owner: u64, cell: u16, remaining: u64, record_bytes: u64 },
}

/// References that a page holds, in reading order, and the structural fault
/// that ends the reading, if there is one.
pub struct Plan {
    pub refs: Seq<(u64, Role)>,
    pub stop: Option<ErrorView>,
}

/// The roles after some references were registered, and the fault that ended
/// the registration, if there was one.
pub struct Registered {
    pub roles: Map<u64, Role>,
    pub stop: Option<ErrorView>,
}

pub open spec fn fault(message: Seq<char>) -> Option<ErrorView> {
    Some(ErrorView::Corrupt(message))
}

pub open spec fn stopped(message: Seq<char>) -> Plan {
    Plan { refs: Seq::empty(), stop: fault(message) }
}

// ---------------------------------------------------------------- integers

/// Big-endian base-128 digits, the high bit of a byte meaning that another
/// digit follows; a ninth byte contributes all its eight bits. Gives the value
/// and the number of bytes taken, for digits from position `i` on above `v`.
pub open spec fn varint_from(b: Seq<u8>, i: nat, v: nat) -> Option<(nat, nat)>
    decreases 9 - i,
{
    if i >= b.len() || i > 8 {
        None
    } else if i == 8 {
        Some((v * 256 + b[8] as nat, 9))
    } else if b[i as int] < 128 {
        Some((v * 128 + b[i as int] as nat, i + 1))
    } else {
        varint_from(b, i + 1, (v * 128 + (b[i as int] - 128)) as nat)
    }
}

pub open spec fn varint_of(b: Seq<u8>) -> Option<(nat, nat)> {
    varint_from(b, 0, 0)
}

pub open spec fn varint_result(b: Seq<u8>) -> Result<(u64, usize), ErrorView> {
    match varint_of(b) {
        Some((value, taken)) => Ok((value as u64, taken as usize)),
        None => Err(ErrorView::Corrupt("invalid SQLite varint"@)),
    }
}

/// The largest value of `i` base-128 digits, plus one.
spec fn digits_bound(i: nat) -> nat
    decreases i,
{
    if i == 0 {
        1
    } else {
        digits_bound((i - 1) as nat) * 128
    }
}

proof fn lemma_digits_bound(i: nat)
    requires
        i <= 8,
    ensures
        digits_bound(i) <= 0x100_0000_0000_0000,
        i < 8 ==> digits_bound(i) <= 0x2_0000_0000_0000,
{
    reveal_with_fuel(digits_bound, 9);
}

/// A varint takes between one and nine bytes of those it is given, and its
/// value fits 64 bits.
pub proof fn lemma_varint_bounds(b: Seq<u8>)
    ensures
        varint_of(b) matches Some((value, taken)) ==> {
            &&& 1 <= taken <= 9
            &&& taken <= b.len()
            &&& value <= u64::MAX
        },
{
    lemma_varint_from_bounds(b, 0, 0);
}

proof fn lemma_varint_from_bounds(b: Seq<u8>, i: nat, v: nat)
    requires
        i <= 8,
        v < digits_bound(i),
    ensures
        varint_from(b, i, v) matches Some((value, taken)) ==> {
            &&& i < taken <= 9
            &&& taken <= b.len()
            &&& value <= u64::MAX
        },
    decreases 9 - i,
{
    lemma_digits_bound(i);
    if i < b.len() && i < 8 {
        lemma_digits_bound(i + 1);
        if b[i as int] >= 128 {
            lemma_varint_from_bounds(b, i + 1, (v * 128 + (b[i as int] - 128)) as nat);
        }
    }
}

pub fn varint(b: &[u8]) -> (r: Result<(u64, usize), RuntimeError>)
    ensures
        outcome(r) == varint_result(b@),
{
    let mut v: u64 = 0;
    let mut i: usize = 0;
    while i < b.len() && i < 8
        invariant
            i <= 8,
            i <= b@.len(),
            v < digits_bound(i as nat),
            varint_of(b@) == varint_from(b@, i as nat, v as nat),
        decreases 8 - i,
    {
        proof {
            lemma_digits_bound(i as nat);
        }
        let x: u8 = b[i];
        if x < 128 {
            return Ok((v * 128 + x as u64, i + 1));
        }
        v = v * 128 + (x - 128) as u64;
        i = i + 1;
    }
    proof {
        lemma_digits_bound(i as nat);
    }
    if i == 8 && b.len() > 8 {
        return Ok((v * 256 + b[8] as u64, 9));
    }
    Err(corrupt("invalid SQLite varint"))
}

/// Bytes of a `payload` that are stored in the cell itself, for 4096-byte
/// pages without reserved space: all of them up to a limit, else as many as
/// fill whole overflow pages, or the least allowed.
pub open spec fn local_bytes(payload: nat, ty: u8) -> nat {
    let most: nat = if ty == 13 {
        4061
    } else {
        1002
    };
    if payload <= most {
        payload
    } else {
        let n = (489 + (payload - 489) % 4092) as nat;
        if n > most {
            489
        } else {
            n
        }
    }
}

pub fn local(payload: u64, ty: u8) -> (n: u64)
    ensures
        n == local_bytes(payload as nat, ty),
        n <= payload,
        n <= 4061,
{
    let usable: u64 = 4096;
    let max: u64 = if ty == 13 {
        usable - 35
    } else {
        ((usable - 12) * 64 / 255) - 23
    };
    if payload <= max {
        return payload;
    }
    let min: u64 = ((usable - 12) * 32 / 255) - 23;
    let n: u64 = min + (payload - min) % (usable - 4);
    if n > max {
        min
    } else {
        n
    }
}

// ---------------------------------------------------------- schema records

/// Stored size of a column with serial type `s`.
pub open spec fn serial_size(s: u64) -> Result<usize, ErrorView> {
    if s == 0 || s == 8 || s == 9 {
        Ok(0)
    } else if s <= 4 {
        Ok(s as usize)
    } else if s == 5 {
        Ok(6)
    } else if s <= 7 {
        Ok(8)
    } else if s <= 11 {
        Err(ErrorView::Corrupt("reserved SQLite serial type"@))
    } else if (s - 12) / 2 > usize::MAX {
        Err(ErrorView::Corrupt("SQLite serial size overflow"@))
    } else {
        Ok(((s - 12) / 2) as usize)
    }
}

pub fn serial_len(s: u64) -> (r: Result<usize, RuntimeError>)
    ensures
        outcome(r) == serial_size(s),
{
    if s == 0 || s == 8 || s == 9 {
        Ok(0)
    } else if s <= 4 {
        Ok(s as usize)
    } else if s == 5 {
        Ok(6)
    } else if s <= 7 {
        Ok(8)
    } else if s <= 11 {
        Err(corrupt("reserved SQLite serial type"))
    } else {
        let n: u64 = (s - 12) / 2;
        if n > usize::MAX as u64 {
            Err(corrupt("SQLite serial size overflow"))
        } else {
            Ok(n as usize)
        }
    }
}

/// Serial types written from `at` up to `end`, or `None` where one of them is
/// cut off.
pub open spec fn serials_from(b: Seq<u8>, at: int, end: int) -> Option<Seq<u64>>
    decreases end - at,
    when 0 <= at && end <= b.len()
{
    proof {
        lemma_varint_bounds(b.subrange(at, end));
    }
    if at >= end {
        Some(Seq::empty())
    } else {
        match varint_of(b.subrange(at, end)) {
            None => None,
            Some((value, taken)) => match serials_from(b, at + taken, end) {
                None => None,
                Some(rest) => Some(seq![value as u64] + rest),
            },
        }
    }
}

/// Where column `k` starts, its values beginning at `start`; the fault where
/// an earlier column is malformed or does not fit.
pub open spec fn column_start(serials: Seq<u64>, start: int, len: int, k: nat) -> Result<
    int,
    ErrorView,
>
    decreases k,
{
    if k == 0 {
        Ok(start)
    } else {
        match column_start(serials, start, len, (k - 1) as nat) {
            Err(e) => Err(e),
            Ok(at) => match serial_size(serials[k - 1]) {
                Err(e) => Err(e),
                Ok(n) => if at + n > usize::MAX {
                    Err(ErrorView::Corrupt("schema record size overflow"@))
                } else if at + n > len {
                    Err(ErrorView::Corrupt("schema record exceeds local payload"@))
                } else {
                    Ok(at + n)
                },
            },
        }
    }
}

/// Big-endian value of `n` bytes at `at`.
pub open spec fn be_value(b: Seq<u8>, at: int, n: nat) -> nat
    decreases n,
{
    if n == 0 {
        0
    } else {
        be_value(b, at, (n - 1) as nat) * 256 + b[at + n - 1] as nat
    }
}

/// The integer of serial type `s` stored at `at`: the fourth column of a
/// `sqlite_schema` row, which names the root page of a table or index.
pub open spec fn root_value(b: Seq<u8>, s: u64, at: int) -> Result<Option<u64>, ErrorView> {
    match serial_size(s) {
        Err(e) => Err(e),
        Ok(n) => if s == 0 {
            Ok(None)
        } else if s == 8 {
            Ok(Some(0u64))
        } else if s == 9 {
            Ok(Some(1u64))
        } else if s > 6 {
            Err(ErrorView::Corrupt("sqlite_schema rootpage is not integer"@))
        } else if at + n > b.len() {
            Err(ErrorView::Corrupt("sqlite_schema rootpage exceeds local payload"@))
        } else if b[at] >= 128 {
            Err(ErrorView::Corrupt("negative sqlite_schema root page"@))
        } else {
            Ok(Some(be_value(b, at, n as nat) as u64))
        },
    }
}

/// The root page that the local part of a `sqlite_schema` record names.
pub open spec fn schema_root_of(b: Seq<u8>) -> Result<Option<u64>, ErrorView> {
    match varint_of(b) {
        None => Err(ErrorView::Corrupt("invalid SQLite varint"@)),
        Some((h, taken)) => if h > usize::MAX {
            Err(ErrorView::Corrupt("schema record header overflow"@))
        } else if h < taken || h > b.len() {
            Err(ErrorView::Corrupt("schema record header exceeds local payload"@))
        } else {
            match serials_from(b, taken as int, h as int) {
                None => Err(ErrorView::Corrupt("invalid SQLite varint"@)),
                Some(serials) => if serials.len() < 4 {
                    Err(ErrorView::Corrupt("sqlite_schema record has too few columns"@))
                } else {
                    match column_start(serials, h as int, b.len() as int, 3) {
                        Err(e) => Err(e),
                        Ok(at) => root_value(b, serials[3], at),
                    }
                },
            }
        },
    }
}

fn serials(payload: &[u8], from: usize, end: usize) -> (r: Option<Vec<u64>>)
    requires
        from <= end <= payload@.len(),
    ensures
        match r {
            None => serials_from(payload@, from as int, end as int) is None,
            Some(v) => serials_from(payload@, from as int, end as int) == Some(v@),
        },
{
    let mut out: Vec<u64> = Vec::new();
    let mut at: usize = from;
    while at < end
        invariant
            from <= at <= end <= payload@.len(),
            match serials_from(payload@, at as int, end as int) {
                None => serials_from(payload@, from as int, end as int) is None,
                Some(rest) => serials_from(payload@, from as int, end as int) == Some(out@ + rest),
            },
        decreases end - at,
    {
        let window = &payload[at..end];
        assert(window@ == payload@.subrange(at as int, end as int));
        proof {
            lemma_varint_bounds(window@);
        }
        match varint(window) {
            Err(_) => {
                return None;
            },
            Ok((value, taken)) => {
                let ghost before = out@;
                out.push(value);
                proof {
                    match serials_from(payload@, at + taken, end as int) {
                        None => {},
                        Some(rest) => {
                            assert(before + (seq![value] + rest) =~= out@ + rest);
                        },
                    }
                }
                at = at + taken;
            },
        }
    }
    assert(out@ + Seq::<u64>::empty() =~= out@);
    Some(out)
}

fn column_offset(serials: &Vec<u64>, start: usize, len: usize, k: usize) -> (r: Result<
    usize,
    RuntimeError,
>)
    requires
        k <= serials@.len(),
        start <= len,
    ensures
        match r {
            Err(e) => column_start(serials@, start as int, len as int, k as nat) == Err::<
                int,
                ErrorView,
            >(e@),
            Ok(at) => {
                &&& column_start(serials@, start as int, len as int, k as nat) == Ok::<
                    int,
                    ErrorView,
                >(at as int)
                &&& at <= len
            },
        },
    decreases k,
{
    if k == 0 {
        return Ok(start);
    }
    let at: usize = match column_offset(serials, start, len, k - 1) {
        Err(e) => {
            return Err(e);
        },
        Ok(at) => at,
    };
    let n: usize = match serial_len(serials[k - 1]) {
        Err(e) => {
            return Err(e);
        },
        Ok(n) => n,
    };
    match at.checked_add(n) {
        None => Err(corrupt("schema record size overflow")),
        Some(next) => if next > len {
            Err(corrupt("schema record exceeds local payload"))
        } else {
            Ok(next)
        },
    }
}

spec fn bytes_bound(n: nat) -> nat
    decreases n,
{
    if n == 0 {
        1
    } else {
        bytes_bound((n - 1) as nat) * 256
    }
}

fn root_number(payload: &[u8], s: u64, at: usize) -> (r: Result<Option<u64>, RuntimeError>)
    requires
        at <= payload@.len(),
    ensures
        outcome(r) == root_value(payload@, s, at as int),
{
    let n: usize = match serial_len(s) {
        Err(e) => {
            return Err(e);
        },
        Ok(n) => n,
    };
    if s == 0 {
        return Ok(None);
    }
    if s == 8 {
        return Ok(Some(0));
    }
    if s == 9 {
        return Ok(Some(1));
    }
    if s > 6 {
        return Err(corrupt("sqlite_schema rootpage is not integer"));
    }
    if n > payload.len() - at {
        return Err(corrupt("sqlite_schema rootpage exceeds local payload"));
    }
    if payload[at] >= 128 {
        return Err(corrupt("negative sqlite_schema root page"));
    }
    let size: usize = payload.len();
    let mut v: u64 = 0;
    let mut i: usize = 0;
    while i < n
        invariant
            i <= n <= 8,
            at + n <= size == payload@.len(),
            v == be_value(payload@, at as int, i as nat),
            v < bytes_bound(i as nat),
        decreases n - i,
    {
        proof {
            reveal_with_fuel(bytes_bound, 9);
        }
        v = v * 256 + payload[at + i] as u64;
        i = i + 1;
    }
    Ok(Some(v))
}

pub fn schema_root(payload: &[u8]) -> (r: Result<Option<u64>, RuntimeError>)
    ensures
        outcome(r) == schema_root_of(payload@),
{
    proof {
        lemma_varint_bounds(payload@);
    }
    let (h, taken) = match varint(payload) {
        Err(e) => {
            return Err(e);
        },
        Ok(x) => x,
    };
    if h > usize::MAX as u64 {
        return Err(corrupt("schema record header overflow"));
    }
    let h: usize = h as usize;
    if h < taken || h > payload.len() {
        return Err(corrupt("schema record header exceeds local payload"));
    }
    match serials(payload, taken, h) {
        None => Err(corrupt("invalid SQLite varint")),
        Some(serial) => {
            if serial.len() < 4 {
                return Err(corrupt("sqlite_schema record has too few columns"));
            }
            match column_offset(&serial, h, payload.len(), 3) {
                Err(e) => Err(e),
                Ok(at) => root_number(payload, serial[3], at),
            }
        },
    }
}

// ------------------------------------------------------------ registration

/// The roles after one reference to page `n` in role `r`. A reference to a
/// page that already has exactly this role changes nothing.
pub open spec fn register_one(
    roles: Map<u64, Role>,
    pages: u64,
    max_roles: usize,
    n: u64,
    r: Role,
) -> Registered {
    if n == 0 || n > pages {
        Registered {
            roles,
            stop: fault("SQLite page reference is outside the authenticated image"@),
        }
    } else if roles.contains_key(n) {
        if roles[n] == r {
            Registered { roles, stop: None }
        } else {
            Registered { roles, stop: fault("SQLite page has conflicting structural roles"@) }
        }
    } else if roles.len() >= max_roles {
        Registered {
            roles,
            stop: Some(ErrorView::ResourceExhausted("SQLite page-role budget exhausted"@)),
        }
    } else {
        Registered { roles: roles.insert(n, r), stop: None }
    }
}

/// The roles after the references in order, up to the first that is refused.
pub open spec fn register(
    roles: Map<u64, Role>,
    pages: u64,
    max_roles: usize,
    refs: Seq<(u64, Role)>,
) -> Registered
    decreases refs.len(),
{
    if refs.len() == 0 {
        Registered { roles, stop: None }
    } else {
        let before = register(roles, pages, max_roles, refs.drop_last());
        if before.stop is Some {
            before
        } else {
            register_one(before.roles, pages, max_roles, refs.last().0, refs.last().1)
        }
    }
}

/// Once a reference is refused, later ones are not looked at.
pub proof fn lemma_register_stops(
    roles: Map<u64, Role>,
    pages: u64,
    max_roles: usize,
    head: Seq<(u64, Role)>,
    tail: Seq<(u64, Role)>,
)
    requires
        register(roles, pages, max_roles, head).stop is Some,
    ensures
        register(roles, pages, max_roles, head + tail) == register(roles, pages, max_roles, head),
    decreases tail.len(),
{
    if tail.len() == 0 {
        assert(head + tail =~= head);
    } else {
        assert((head + tail).drop_last() =~= head + tail.drop_last());
        lemma_register_stops(roles, pages, max_roles, head, tail.drop_last());
    }
}

/// Registering more references only adds roles: every page keeps the role it
/// had, every new page lies inside the image, and the budget is kept.
pub proof fn lemma_roles_only_grow(
    roles: Map<u64, Role>,
    pages: u64,
    max_roles: usize,
    refs: Seq<(u64, Role)>,
)
    requires
        roles.dom().finite(),
    ensures
        ({
            let after = register(roles, pages, max_roles, refs).roles;
            &&& after.dom().finite()
            &&& roles.submap_of(after)
            &&& roles.len() <= after.len() <= roles.len() + refs.len()
            &&& after.len() <= max_roles || after.len() == roles.len()
            &&& forall|n: u64| #[trigger]
                after.contains_key(n) && !roles.contains_key(n) ==> 1 <= n <= pages
        }),
    decreases refs.len(),
{
    if refs.len() > 0 {
        lemma_roles_only_grow(roles, pages, max_roles, refs.drop_last());
        let before = register(roles, pages, max_roles, refs.drop_last());
        let after = register(roles, pages, max_roles, refs);
        let n = refs.last().0;
        if before.stop is None && after.roles != before.roles {
            assert(after.roles.dom() =~= before.roles.dom().insert(n));
            assert(roles.submap_of(after.roles)) by {
                assert forall|k: u64| #[trigger] roles.contains_key(k) implies after.roles.contains_key(
                    k,
                ) && roles[k] == after.roles[k] by {
                    assert(before.roles.contains_key(k));
                }
            }
        }
    }
}

/// References that were all accepted once are accepted again and add nothing.
pub proof fn lemma_register_again(
    roles: Map<u64, Role>,
    pages: u64,
    max_roles: usize,
    refs: Seq<(u64, Role)>,
    later: Map<u64, Role>,
)
    requires
        roles.dom().finite(),
        register(roles, pages, max_roles, refs).stop is None,
        register(roles, pages, max_roles, refs).roles.submap_of(later),
    ensures
        register(later, pages, max_roles, refs) == (Registered { roles: later, stop: None }),
    decreases refs.len(),
{
    if refs.len() > 0 {
        let before = register(roles, pages, max_roles, refs.drop_last());
        lemma_roles_only_grow(roles, pages, max_roles, refs.drop_last());
        assert(before.stop is None);
        let after = register(roles, pages, max_roles, refs);
        assert(before.roles.submap_of(after.roles));
        assert(before.roles.submap_of(later)) by {
            assert forall|n: u64| #[trigger] before.roles.contains_key(n) implies later.contains_key(
                n,
            ) && before.roles[n] == later[n] by {
                assert(after.roles.contains_key(n));
            }
        }
        lemma_register_again(roles, pages, max_roles, refs.drop_last(), later);
        assert(after.roles.contains_key(refs.last().0));
        assert(after.roles[refs.last().0] == refs.last().1);
    }
}

// ---------------------------------------------------------- what a page says

pub open spec fn is_internal(ty: u8) -> bool {
    ty == 2 || ty == 5
}

/// The reference that an internal cell makes to the child on its left.
pub open spec fn child_ref(b: Seq<u8>, page: u64, schema_tree: bool, i: int, at: int) -> (
    u64,
    Role,
) {
    (
        be32(b, at) as u64,
        Role::Btree { parent: page, slot: i as usize, root: false, schema_tree },
    )
}

/// What the payload of a leaf or index cell refers to, starting at `at`: the
/// root of the table that a schema record describes, and the first page of an
/// overflow chain.
#[verifier::opaque]
pub open spec fn payload_plan(b: Seq<u8>, page: u64, ty: u8, schema_tree: bool, i: int, at: int) -> Plan {
    match varint_of(b.subrange(at, PAGE as int)) {
        None => stopped("invalid SQLite varint"@),
        Some((payload, taken)) => {
            let in_cell = local_bytes(payload, ty) as int;
            let rowid = if ty == 13 {
                varint_of(b.subrange(at + taken, PAGE as int))
            } else {
                Some((0nat, 0nat))
            };
            match rowid {
                None => stopped("invalid SQLite varint"@),
                Some((_, rowid_taken)) => {
                    let start = at + taken + rowid_taken;
                    let end = start + in_cell;
                    if end > PAGE {
                        stopped("SQLite local payload exceeds page"@)
                    } else {
                        let named = if schema_tree && ty == 13 {
                            schema_root_of(b.subrange(start, end))
                        } else {
                            Ok(None)
                        };
                        match named {
                            Err(e) => Plan { refs: Seq::empty(), stop: Some(e) },
                            Ok(root) => {
                                let roots: Seq<(u64, Role)> = match root {
                                    Some(n) => if n != 0 {
                                        seq![
                                            (
                                                n,
                                                Role::Btree {
                                                    parent: page,
                                                    slot: i as usize,
                                                    root: true,
                                                    schema_tree: false,
                                                },
                                            ),
                                        ]
                                    } else {
                                        Seq::empty()
                                    },
                                    None => Seq::empty(),
                                };
                                if payload <= in_cell {
                                    Plan { refs: roots, stop: None }
                                } else if end + 4 > PAGE {
                                    Plan {
                                        refs: roots,
                                        stop: fault("truncated SQLite overflow pointer"@),
                                    }
                                } else {
                                    Plan {
                                        refs: roots.push(
                                            (
                                                be32(b, end) as u64,
                                                Role::Overflow {
                                                    owner: page,
                                                    cell: i as u16,
                                                    remaining: (payload - in_cell) as u64,
                                                    record_bytes: payload as u64,
                                                },
                                            ),
                                        ),
                                        stop: None,
                                    }
                                }
                            },
                        }
                    }
                },
            }
        },
    }
}

/// What cell `i` refers to. Cell pointers begin at `start` and there are
/// `cells` of them.
#[verifier::opaque]
pub open spec fn cell_plan(
    b: Seq<u8>,
    page: u64,
    ty: u8,
    schema_tree: bool,
    start: int,
    cells: int,
    i: int,
) -> Plan {
    let at = be16(b, start + i * 2);
    if at < start + cells * 2 || at >= PAGE {
        stopped("SQLite cell pointer out of bounds"@)
    } else if is_internal(ty) {
        if at + 4 > PAGE {
            stopped("truncated internal child"@)
        } else {
            let child = child_ref(b, page, schema_tree, i, at);
            let rest = if ty == 5 {
                if varint_of(b.subrange(at + 4, PAGE as int)) is None {
                    stopped("invalid SQLite varint"@)
                } else {
                    Plan { refs: Seq::empty(), stop: None }
                }
            } else {
                payload_plan(b, page, ty, schema_tree, i, at + 4)
            };
            Plan { refs: seq![child] + rest.refs, stop: rest.stop }
        }
    } else {
        payload_plan(b, page, ty, schema_tree, i, at)
    }
}

/// What the first `n` cells refer to, after the references in `first`.
pub open spec fn cells_plan(
    b: Seq<u8>,
    page: u64,
    ty: u8,
    schema_tree: bool,
    start: int,
    cells: int,
    first: Seq<(u64, Role)>,
    n: nat,
) -> Plan
    decreases n,
{
    if n == 0 {
        Plan { refs: first, stop: None }
    } else {
        let before = cells_plan(b, page, ty, schema_tree, start, cells, first, (n - 1) as nat);
        if before.stop is Some {
            before
        } else {
            let cell = cell_plan(b, page, ty, schema_tree, start, cells, n - 1);
            Plan { refs: before.refs + cell.refs, stop: cell.stop }
        }
    }
}

/// The fixed header of the first page: the magic text, 4096-byte pages, no
/// reserved space and the standard payload fractions.
pub open spec fn file_header_fault(b: Seq<u8>) -> Option<ErrorView> {
    if b.subrange(0, 16) != sqlite_magic() {
        fault("invalid SQLite header"@)
    } else if b[16] != 16 || b[17] != 0 || b[20] != 0 || b[21] != 64 || b[22] != 32 || b[23] != 32 {
        fault("unsupported SQLite page geometry"@)
    } else {
        None
    }
}

pub open spec fn sqlite_magic() -> Seq<u8> {
    seq![83u8, 81, 76, 105, 116, 101, 32, 102, 111, 114, 109, 97, 116, 32, 51, 0]
}

/// What a b-tree page refers to: the rightmost child of an internal page,
/// then each cell in order.
pub open spec fn btree_plan(b: Seq<u8>, page: u64, schema_tree: bool) -> Plan {
    if page == 1 && file_header_fault(b) is Some {
        Plan { refs: Seq::empty(), stop: file_header_fault(b) }
    } else {
        let off: int = if page == 1 {
            100
        } else {
            0
        };
        let ty = b[off];
        let start = off + if is_internal(ty) {
            12int
        } else {
            8int
        };
        let cells = be16(b, off + 3);
        if ty != 2 && ty != 5 && ty != 10 && ty != 13 {
            stopped("page is neither registered overflow nor btree"@)
        } else if start + cells * 2 > PAGE {
            stopped("SQLite cell pointers exceed page"@)
        } else {
            let first: Seq<(u64, Role)> = if is_internal(ty) {
                seq![child_ref(b, page, schema_tree, usize::MAX as int, off + 8)]
            } else {
                Seq::empty()
            };
            cells_plan(b, page, ty, schema_tree, start, cells, first, cells as nat)
        }
    }
}

/// What one link of an overflow chain refers to: the next link, exactly while
/// bytes of the record remain.
pub open spec fn overflow_plan(
    b: Seq<u8>,
    max: usize,
    owner: u64,
    cell: u16,
    remaining: u64,
    record_bytes: u64,
) -> Plan {
    let next = be32(b, 0);
    if record_bytes > max {
        Plan {
            refs: Seq::empty(),
            stop: Some(ErrorView::ResourceExhausted("SQLite record exceeds configured bound"@)),
        }
    } else if remaining > 4092 {
        Plan {
            refs: seq![
                (
                    next as u64,
                    Role::Overflow {
                        owner,
                        cell,
                        remaining: (remaining - 4092) as u64,
                        record_bytes,
                    },
                ),
            ],
            stop: None,
        }
    } else if next != 0 {
        stopped("overflow chain has an unexpected continuation"@)
    } else {
        Plan { refs: Seq::empty(), stop: None }
    }
}

/// What `page` refers to, given the roles known so far.
pub open spec fn page_plan(
    roles: Map<u64, Role>,
    pages: u64,
    max: usize,
    page: u64,
    b: Seq<u8>,
) -> Plan {
    if b.len() != PAGE {
        stopped("invalid SQLite page length"@)
    } else if page == 0 || page > pages {
        stopped("SQLite page is outside image"@)
    } else if !roles.contains_key(page) {
        stopped("unregistered SQLite page role"@)
    } else {
        match roles[page] {
            Role::Overflow { owner, cell, remaining, record_bytes } => overflow_plan(
                b,
                max,
                owner,
                cell,
                remaining,
                record_bytes,
            ),
            Role::Btree { schema_tree, .. } => btree_plan(b, page, schema_tree),
        }
    }
}

/// What validating `page` gives: the number of pages that got a role, or the
/// first fault in reading order.
pub open spec fn validation(
    roles: Map<u64, Role>,
    pages: u64,
    max: usize,
    max_roles: usize,
    page: u64,
    b: Seq<u8>,
) -> Result<usize, ErrorView> {
    let plan = page_plan(roles, pages, max, page, b);
    let after = register(roles, pages, max_roles, plan.refs);
    if after.stop is Some {
        Err(after.stop->0)
    } else if plan.stop is Some {
        Err(plan.stop->0)
    } else {
        Ok((after.roles.len() - roles.len()) as usize)
    }
}

/// The roles after validating `page`. A page that fails keeps the roles it
/// gave before the fault.
pub open spec fn roles_after(
    roles: Map<u64, Role>,
    pages: u64,
    max: usize,
    max_roles: usize,
    page: u64,
    b: Seq<u8>,
) -> Map<u64, Role> {
    register(roles, pages, max_roles, page_plan(roles, pages, max, page, b).refs).roles
}

/// A page that was accepted is accepted again, and gives no further roles.
pub proof fn lemma_validation_is_idempotent(
    roles: Map<u64, Role>,
    pages: u64,
    max: usize,
    max_roles: usize,
    page: u64,
    b: Seq<u8>,
)
    requires
        roles.dom().finite(),
        validation(roles, pages, max, max_roles, page, b) is Ok,
    ensures
        ({
            let after = roles_after(roles, pages, max, max_roles, page, b);
            &&& validation(after, pages, max, max_roles, page, b) == Ok::<usize, ErrorView>(0)
            &&& roles_after(after, pages, max, max_roles, page, b) == after
        }),
{
    let plan = page_plan(roles, pages, max, page, b);
    let after = roles_after(roles, pages, max, max_roles, page, b);
    lemma_roles_only_grow(roles, pages, max_roles, plan.refs);
    assert(roles.contains_key(page));
    assert(after.contains_key(page) && after[page] == roles[page]);
    assert(page_plan(after, pages, max, page, b) == plan);
    lemma_register_again(roles, pages, max_roles, plan.refs, after);
}

/// The links of an overflow chain always have fewer bytes left, so a chain
/// can visit no page twice in the same role.
pub proof fn lemma_overflow_chain_shrinks(
    b: Seq<u8>,
    max: usize,
    owner: u64,
    cell: u16,
    remaining: u64,
    record_bytes: u64,
)
    ensures
        ({
            let plan = overflow_plan(b, max, owner, cell, remaining, record_bytes);
            &&& plan.refs.len() <= 1
            &&& plan.refs.len() == 1 ==> {
                &&& plan.refs[0].1 matches Role::Overflow {
                    owner: o,
                    cell: c,
                    remaining: r,
                    record_bytes: t,
                }
                &&& o == owner
                &&& c == cell
                &&& t == record_bytes
                &&& 0 < r < remaining
            }
        }),
{
}

// --------------------------------------------------------------- validator

/// Registering two lists one after the other is registering their join.
proof fn lemma_register_join(
    roles: Map<u64, Role>,
    pages: u64,
    max_roles: usize,
    head: Seq<(u64, Role)>,
    tail: Seq<(u64, Role)>,
)
    requires
        register(roles, pages, max_roles, head).stop is None,
    ensures
        register(roles, pages, max_roles, head + tail) == register(
            register(roles, pages, max_roles, head).roles,
            pages,
            max_roles,
            tail,
        ),
    decreases tail.len(),
{
    if tail.len() == 0 {
        assert(head + tail =~= head);
    } else {
        assert((head + tail).drop_last() =~= head + tail.drop_last());
        lemma_register_join(roles, pages, max_roles, head, tail.drop_last());
    }
}

/// Plans only get longer with more cells, and a fault ends them.
proof fn lemma_cells_plan_extends(
    b: Seq<u8>,
    page: u64,
    ty: u8,
    schema_tree: bool,
    start: int,
    cells: int,
    first: Seq<(u64, Role)>,
    n: nat,
    m: nat,
)
    requires
        n <= m,
    ensures
        ({
            let short = cells_plan(b, page, ty, schema_tree, start, cells, first, n);
            let long = cells_plan(b, page, ty, schema_tree, start, cells, first, m);
            &&& short.refs.is_prefix_of(long.refs)
            &&& short.stop is Some ==> long == short
        }),
    decreases m - n,
{
    if n < m {
        lemma_cells_plan_extends(
            b,
            page,
            ty,
            schema_tree,
            start,
            cells,
            first,
            n,
            (m - 1) as nat,
        );
    }
}

/// What following a plan gives.
pub open spec fn followed(
    roles: Map<u64, Role>,
    pages: u64,
    max_roles: usize,
    plan: Plan,
) -> Result<(), ErrorView> {
    let after = register(roles, pages, max_roles, plan.refs);
    if after.stop is Some {
        Err(after.stop->0)
    } else if plan.stop is Some {
        Err(plan.stop->0)
    } else {
        Ok(())
    }
}

/// Checks pages one at a time and remembers the role of every page that a
/// checked page referred to.
pub struct PageValidator {
    pages: u64,
    max: usize,
    roles: BTreeMap<u64, Role>,
    max_roles: usize,
}

impl PageValidator {
    /// The roles known so far.
    pub closed spec fn roles(&self) -> Map<u64, Role> {
        self.roles@
    }

    /// Pages in the image.
    pub closed spec fn pages(&self) -> u64 {
        self.pages
    }

    /// The largest record that may be followed into overflow pages.
    pub closed spec fn max(&self) -> usize {
        self.max
    }

    pub closed spec fn max_roles(&self) -> usize {
        self.max_roles
    }

    pub open spec fn same_limits(&self, other: &PageValidator) -> bool {
        &&& self.pages() == other.pages()
        &&& self.max() == other.max()
        &&& self.max_roles() == other.max_roles()
    }

    pub fn role_count(&self) -> (n: usize)
        ensures
            self.roles().dom().finite(),
            n == self.roles().len(),
    {
        self.roles.len()
    }

    /// The role of `page`, if a validated page gave it one.
    pub fn role(&self, page: u64) -> (r: Option<Role>)
        ensures
            r == (if self.roles().contains_key(page) {
                Some(self.roles()[page])
            } else {
                None
            }),
    {
        match self.roles.get(&page) {
            Some(role) => Some(*role),
            None => None,
        }
    }

    /// A validator that knows one page: the first, which roots the schema tree.
    pub fn new(image_bytes: u64, max_record_bytes: usize, max_roles: usize) -> (v: Self)
        ensures
            v.pages() == image_bytes / 4096,
            v.max() == max_record_bytes,
            v.max_roles() == max_roles,
            v.roles() == map![
                1u64 => Role::Btree { parent: 0, slot: 0, root: true, schema_tree: true },
            ],
            v.roles().dom().finite(),
            v.roles().len() == 1,
    {
        let mut roles: BTreeMap<u64, Role> = BTreeMap::new();
        roles.insert(1, Role::Btree { parent: 0, slot: 0, root: true, schema_tree: true });
        PageValidator { pages: image_bytes / PAGE as u64, max: max_record_bytes, roles, max_roles }
    }

    fn add(&mut self, n: u64, r: Role) -> (result: Result<(), RuntimeError>)
        ensures
            final(self).same_limits(old(self)),
            ({
                let after = register_one(
                    old(self).roles(),
                    old(self).pages(),
                    old(self).max_roles(),
                    n,
                    r,
                );
                &&& final(self).roles() == after.roles
                &&& outcome(result) == match after.stop {
                    Some(e) => Err(e),
                    None => Ok(()),
                }
            }),
    {
        if n == 0 || n > self.pages {
            return Err(corrupt("SQLite page reference is outside the authenticated image"));
        }
        match self.roles.get(&n) {
            Some(known) => {
                if *known != r {
                    return Err(corrupt("SQLite page has conflicting structural roles"));
                }
                return Ok(());
            },
            None => {},
        }
        if self.roles.len() >= self.max_roles {
            return Err(exhausted("SQLite page-role budget exhausted"));
        }
        self.roles.insert(n, r);
        Ok(())
    }

    /// Adds one reference as a list of its own.
    fn add_listed(&mut self, n: u64, r: Role) -> (result: Result<(), RuntimeError>)
        ensures
            final(self).same_limits(old(self)),
            final(self).roles() == register(
                old(self).roles(),
                old(self).pages(),
                old(self).max_roles(),
                seq![(n, r)],
            ).roles,
            outcome(result) == followed(
                old(self).roles(),
                old(self).pages(),
                old(self).max_roles(),
                (Plan { refs: seq![(n, r)], stop: None }),
            ),
    {
        proof {
            reveal_with_fuel(register, 2);
            assert(seq![(n, r)].drop_last() =~= Seq::<(u64, Role)>::empty());
        }
        self.add(n, r)
    }

    fn follow_payload(
        &mut self,
        bytes: &[u8],
        page: u64,
        ty: u8,
        schema_tree: bool,
        i: usize,
        at: usize,
    ) -> (result: Result<(), RuntimeError>)
        requires
            bytes@.len() == PAGE,
            at <= PAGE,
            i < 65536,
        ensures
            final(self).same_limits(old(self)),
            ({
                let plan = payload_plan(bytes@, page, ty, schema_tree, i as int, at as int);
                &&& final(self).roles() == register(
                    old(self).roles(),
                    old(self).pages(),
                    old(self).max_roles(),
                    plan.refs,
                ).roles
                &&& outcome(result) == followed(
                    old(self).roles(),
                    old(self).pages(),
                    old(self).max_roles(),
                    plan,
                )
            }),
    {
        proof {
            reveal(payload_plan);
            reveal_with_fuel(register, 3);
            lemma_varint_bounds(bytes@.subrange(at as int, PAGE as int));
        }
        let (payload, taken) = match varint(&bytes[at..PAGE]) {
            Err(e) => {
                return Err(e);
            },
            Ok(x) => x,
        };
        let in_cell: usize = local(payload, ty) as usize;
        proof {
            lemma_varint_bounds(bytes@.subrange(at + taken, PAGE as int));
        }
        let rowid: usize = if ty == 13 {
            match varint(&bytes[at + taken..PAGE]) {
                Err(e) => {
                    return Err(e);
                },
                Ok((_, n)) => n,
            }
        } else {
            0
        };
        let start: usize = at + taken + rowid;
        let end: usize = start + in_cell;
        if end > PAGE {
            return Err(corrupt("SQLite local payload exceeds page"));
        }
        let mut root: Option<u64> = None;
        if schema_tree && ty == 13 {
            match schema_root(&bytes[start..end]) {
                Err(e) => {
                    return Err(e);
                },
                Ok(named) => {
                    root = named;
                },
            }
        }
        let ghost plan = payload_plan(bytes@, page, ty, schema_tree, i as int, at as int);
        let ghost mut done: Seq<(u64, Role)> = Seq::empty();
        if let Some(n) = root {
            if n != 0 {
                let role = Role::Btree { parent: page, slot: i, root: true, schema_tree: false };
                proof {
                    done = seq![(n, role)];
                    assert(plan.refs =~= done || plan.refs =~= done + seq![plan.refs[1]]);
                }
                match self.add_listed(n, role) {
                    Err(e) => {
                        proof {
                            lemma_register_stops(
                                old(self).roles(),
                                old(self).pages(),
                                old(self).max_roles(),
                                done,
                                plan.refs.subrange(1, plan.refs.len() as int),
                            );
                            assert(plan.refs =~= done + plan.refs.subrange(
                                1,
                                plan.refs.len() as int,
                            ));
                        }
                        return Err(e);
                    },
                    Ok(()) => {},
                }
            }
        }
        if payload > in_cell as u64 {
            if end + 4 > PAGE {
                assert(plan.refs =~= done);
                return Err(corrupt("truncated SQLite overflow pointer"));
            }
            let first: u64 = read_be32(bytes, end);
            let role = Role::Overflow {
                owner: page,
                cell: i as u16,
                remaining: payload - in_cell as u64,
                record_bytes: payload,
            };
            proof {
                assert(plan.refs =~= done + seq![(first, role)]);
                lemma_register_join(
                    old(self).roles(),
                    old(self).pages(),
                    old(self).max_roles(),
                    done,
                    seq![(first, role)],
                );
            }
            return self.add_listed(first, role);
        }
        assert(plan.refs =~= done);
        Ok(())
    }

    fn follow_cell(
        &mut self,
        bytes: &[u8],
        page: u64,
        ty: u8,
        schema_tree: bool,
        start: usize,
        cells: usize,
        i: usize,
    ) -> (result: Result<(), RuntimeError>)
        requires
            bytes@.len() == PAGE,
            start + cells * 2 <= PAGE,
            i < cells,
        ensures
            final(self).same_limits(old(self)),
            ({
                let plan = cell_plan(
                    bytes@,
                    page,
                    ty,
                    schema_tree,
                    start as int,
                    cells as int,
                    i as int,
                );
                &&& final(self).roles() == register(
                    old(self).roles(),
                    old(self).pages(),
                    old(self).max_roles(),
                    plan.refs,
                ).roles
                &&& outcome(result) == followed(
                    old(self).roles(),
                    old(self).pages(),
                    old(self).max_roles(),
                    plan,
                )
            }),
    {
        let ghost plan = cell_plan(
            bytes@,
            page,
            ty,
            schema_tree,
            start as int,
            cells as int,
            i as int,
        );
        proof {
            reveal(cell_plan);
        }
        let at: usize = read_be16(bytes, start + i * 2);
        if at < start + cells * 2 || at >= PAGE {
            return Err(corrupt("SQLite cell pointer out of bounds"));
        }
        if ty == 2 || ty == 5 {
            if at + 4 > PAGE {
                return Err(corrupt("truncated internal child"));
            }
            let child: u64 = read_be32(bytes, at);
            let role = Role::Btree { parent: page, slot: i, root: false, schema_tree };
            let ghost head = seq![(child, role)];
            let ghost tail = plan.refs.subrange(1, plan.refs.len() as int);
            assert(plan.refs =~= head + tail);
            match self.add_listed(child, role) {
                Err(e) => {
                    proof {
                        lemma_register_stops(
                            old(self).roles(),
                            old(self).pages(),
                            old(self).max_roles(),
                            head,
                            tail,
                        );
                    }
                    return Err(e);
                },
                Ok(()) => {},
            }
            proof {
                lemma_register_join(
                    old(self).roles(),
                    old(self).pages(),
                    old(self).max_roles(),
                    head,
                    tail,
                );
            }
            if ty == 5 {
                assert(tail =~= Seq::<(u64, Role)>::empty());
                return match varint(&bytes[at + 4..PAGE]) {
                    Err(e) => Err(e),
                    Ok(_) => Ok(()),
                };
            }
            assert(tail =~= payload_plan(
                bytes@,
                page,
                ty,
                schema_tree,
                i as int,
                at + 4,
            ).refs);
            return self.follow_payload(bytes, page, ty, schema_tree, i, at + 4);
        }
        self.follow_payload(bytes, page, ty, schema_tree, i, at)
    }

    fn follow_btree(&mut self, bytes: &[u8], page: u64, schema_tree: bool) -> (result: Result<
        (),
        RuntimeError,
    >)
        requires
            bytes@.len() == PAGE,
        ensures
            final(self).same_limits(old(self)),
            ({
                let plan = btree_plan(bytes@, page, schema_tree);
                &&& final(self).roles() == register(
                    old(self).roles(),
                    old(self).pages(),
                    old(self).max_roles(),
                    plan.refs,
                ).roles
                &&& outcome(result) == followed(
                    old(self).roles(),
                    old(self).pages(),
                    old(self).max_roles(),
                    plan,
                )
            }),
    {
        let off: usize = if page == 1 {
            let magic: [u8; 16] = [
                83,
                81,
                76,
                105,
                116,
                101,
                32,
                102,
                111,
                114,
                109,
                97,
                116,
                32,
                51,
                0,
            ];
            assert(magic@ =~= sqlite_magic());
            if !same_bytes(&bytes[0..16], magic.as_slice()) {
                return Err(corrupt("invalid SQLite header"));
            }
            if bytes[16] != 16 || bytes[17] != 0 || bytes[20] != 0 || bytes[21] != 64 || bytes[22]
                != 32 || bytes[23] != 32 {
                return Err(corrupt("unsupported SQLite page geometry"));
            }
            100
        } else {
            0
        };
        let ty: u8 = bytes[off];
        if ty != 2 && ty != 5 && ty != 10 && ty != 13 {
            return Err(corrupt("page is neither registered overflow nor btree"));
        }
        let internal: bool = ty == 2 || ty == 5;
        let start: usize = if internal {
            off + 12
        } else {
            off + 8
        };
        let cells: usize = read_be16(bytes, off + 3);
        if start + cells * 2 > PAGE {
            return Err(corrupt("SQLite cell pointers exceed page"));
        }
        let ghost roles = self.roles();
        let ghost pages = self.pages();
        let ghost max_roles = self.max_roles();
        let ghost plan = btree_plan(bytes@, page, schema_tree);
        let ghost first: Seq<(u64, Role)> = if internal {
            seq![child_ref(bytes@, page, schema_tree, usize::MAX as int, off + 8)]
        } else {
            Seq::empty()
        };
        proof {
            lemma_cells_plan_extends(
                bytes@,
                page,
                ty,
                schema_tree,
                start as int,
                cells as int,
                first,
                0,
                cells as nat,
            );
        }
        if internal {
            let child: u64 = read_be32(bytes, off + 8);
            match self.add_listed(
                child,
                Role::Btree { parent: page, slot: usize::MAX, root: false, schema_tree },
            ) {
                Err(e) => {
                    proof {
                        let tail = plan.refs.subrange(1, plan.refs.len() as int);
                        assert(plan.refs =~= first + tail);
                        lemma_register_stops(roles, pages, max_roles, first, tail);
                    }
                    return Err(e);
                },
                Ok(()) => {},
            }
        }
        let mut i: usize = 0;
        while i < cells
            invariant
                i <= cells,
                bytes@.len() == PAGE,
                start + cells * 2 <= PAGE,
                self.same_limits(old(self)),
                roles == old(self).roles(),
                pages == self.pages(),
                max_roles == self.max_roles(),
                plan == btree_plan(bytes@, page, schema_tree),
                plan == cells_plan(
                    bytes@,
                    page,
                    ty,
                    schema_tree,
                    start as int,
                    cells as int,
                    first,
                    cells as nat,
                ),
                ({
                    let so_far = cells_plan(
                        bytes@,
                        page,
                        ty,
                        schema_tree,
                        start as int,
                        cells as int,
                        first,
                        i as nat,
                    );
                    &&& so_far.stop is None
                    &&& register(roles, pages, max_roles, so_far.refs) == (Registered {
                        roles: self.roles(),
                        stop: None,
                    })
                }),
            decreases cells - i,
        {
            let ghost so_far = cells_plan(
                bytes@,
                page,
                ty,
                schema_tree,
                start as int,
                cells as int,
                first,
                i as nat,
            );
            let ghost next = cells_plan(
                bytes@,
                page,
                ty,
                schema_tree,
                start as int,
                cells as int,
                first,
                (i + 1) as nat,
            );
            let ghost cell = cell_plan(
                bytes@,
                page,
                ty,
                schema_tree,
                start as int,
                cells as int,
                i as int,
            );
            proof {
                assert(next.refs == so_far.refs + cell.refs);
                lemma_register_join(roles, pages, max_roles, so_far.refs, cell.refs);
                lemma_cells_plan_extends(
                    bytes@,
                    page,
                    ty,
                    schema_tree,
                    start as int,
                    cells as int,
                    first,
                    (i + 1) as nat,
                    cells as nat,
                );
            }
            match self.follow_cell(bytes, page, ty, schema_tree, start, cells, i) {
                Err(e) => {
                    proof {
                        if register(roles, pages, max_roles, next.refs).stop is Some {
                            let tail = plan.refs.subrange(
                                next.refs.len() as int,
                                plan.refs.len() as int,
                            );
                            assert(plan.refs =~= next.refs + tail);
                            lemma_register_stops(roles, pages, max_roles, next.refs, tail);
                        } else {
                            assert(plan == next);
                        }
                    }
                    return Err(e);
                },
                Ok(()) => {},
            }
            i = i + 1;
        }
        Ok(())
    }

    /// Checks one page in the role that it was given, and registers the pages
    /// that it refers to.
    pub fn validate(&mut self, page: u64, bytes: &[u8]) -> (result: Result<usize, RuntimeError>)
        ensures
            final(self).same_limits(old(self)),
            final(self).roles() == roles_after(
                old(self).roles(),
                old(self).pages(),
                old(self).max(),
                old(self).max_roles(),
                page,
                bytes@,
            ),
            outcome(result) == validation(
                old(self).roles(),
                old(self).pages(),
                old(self).max(),
                old(self).max_roles(),
                page,
                bytes@,
            ),
            old(self).roles().dom().finite(),
            final(self).roles().dom().finite(),
            old(self).roles().submap_of(final(self).roles()),
            old(self).roles().len() <= final(self).roles().len(),
            result matches Ok(n) ==> final(self).roles().len() == old(self).roles().len() + n,
            result is Ok ==> validation(
                final(self).roles(),
                old(self).pages(),
                old(self).max(),
                old(self).max_roles(),
                page,
                bytes@,
            ) == Ok::<usize, ErrorView>(0),
    {
        proof {
            let roles = old(self).roles();
            let plan = page_plan(roles, old(self).pages(), old(self).max(), page, bytes@);
            lemma_roles_only_grow(roles, old(self).pages(), old(self).max_roles(), plan.refs);
            if validation(
                roles,
                old(self).pages(),
                old(self).max(),
                old(self).max_roles(),
                page,
                bytes@,
            ) is Ok {
                lemma_validation_is_idempotent(
                    roles,
                    old(self).pages(),
                    old(self).max(),
                    old(self).max_roles(),
                    page,
                    bytes@,
                );
            }
        }
        if bytes.len() != PAGE {
            return Err(corrupt("invalid SQLite page length"));
        }
        if page == 0 || page > self.pages {
            return Err(corrupt("SQLite page is outside image"));
        }
        let role = match self.role(page) {
            None => {
                return Err(corrupt("unregistered SQLite page role"));
            },
            Some(role) => role,
        };
        let before: usize = self.roles.len();
        match role {
            Role::Overflow { owner, cell, remaining, record_bytes } => {
                if record_bytes > self.max as u64 {
                    return Err(exhausted("SQLite record exceeds configured bound"));
                }
                let next: u64 = read_be32(bytes, 0);
                if remaining > 4092 {
                    match self.add_listed(
                        next,
                        Role::Overflow { owner, cell, remaining: remaining - 4092, record_bytes },
                    ) {
                        Err(e) => {
                            return Err(e);
                        },
                        Ok(()) => {},
                    }
                } else if next != 0 {
                    return Err(corrupt("overflow chain has an unexpected continuation"));
                }
            },
            Role::Btree { schema_tree, .. } => {
                match self.follow_btree(bytes, page, schema_tree) {
                    Err(e) => {
                        return Err(e);
                    },
                    Ok(()) => {},
                }
            },
        }
        Ok(self.roles.len() - before)
    }
}

} // verus!
