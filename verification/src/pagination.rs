//! Cursor-based paging over ordered lists.
//!
//! A page starting at position `from` holds at most `effective_limit(limit)`
//! consecutive items.  A page that came back full carries the position right
//! after its last item as the cursor of the next page; any other page carries
//! the cursor `0`, which means that the listing is over.
use vstd::prelude::*;

verus! {

/// Page size used when a caller asks for zero items.
pub const DEFAULT_PAGE_LIMIT: u32 = 20;

/// Largest page any query returns.
pub const MAX_PAGE_LIMIT: u32 = 50;

/// The page size actually used for a requested `limit`.
pub open spec fn effective_limit(limit: u32) -> nat {
    if limit == 0 {
        DEFAULT_PAGE_LIMIT as nat
    } else if limit > MAX_PAGE_LIMIT {
        MAX_PAGE_LIMIT as nat
    } else {
        limit as nat
    }
}

/// Number of items on the page that starts at `from` in a list of `len` items.
pub open spec fn page_count(len: nat, from: nat, limit: u32) -> nat {
    if from >= len {
        0
    } else if len - from < effective_limit(limit) {
        (len - from) as nat
    } else {
        effective_limit(limit)
    }
}

/// Cursor handed back with the page that starts at `from`: the position after
/// the page when the page is full, and `0` otherwise.
pub open spec fn page_next_cursor(len: nat, from: nat, limit: u32) -> nat {
    if page_count(len, from, limit) == effective_limit(limit) {
        from + effective_limit(limit)
    } else {
        0
    }
}

/// The items of the page that starts at `from`.
pub open spec fn page_items<A>(s: Seq<A>, from: nat, limit: u32) -> Seq<A> {
    if from >= s.len() {
        Seq::empty()
    } else {
        s.subrange(from as int, (from + page_count(s.len(), from, limit)) as int)
    }
}

/// Everything a reader collects by starting at `from` and following the
/// cursors until one of them is `0` (a cursor never points backwards; the
/// second guard only keeps the recursion visibly well founded).
pub open spec fn follow_pages<A>(s: Seq<A>, from: nat, limit: u32) -> Seq<A>
    decreases s.len() - from,
{
    if from >= s.len() {
        Seq::empty()
    } else {
        let next = page_next_cursor(s.len(), from, limit);
        if next == 0 || next <= from {
            page_items(s, from, limit)
        } else {
            page_items(s, from, limit) + follow_pages(s, next, limit)
        }
    }
}

/// Replaces a zero limit by the default and caps it at the maximum.
pub fn clamp_limit(limit: u32) -> (r: u32)
    ensures
        r as nat == effective_limit(limit),
        1 <= r <= MAX_PAGE_LIMIT,
        limit == 0 ==> r == DEFAULT_PAGE_LIMIT,
        1 <= limit <= MAX_PAGE_LIMIT ==> r == limit,
        limit > MAX_PAGE_LIMIT ==> r == MAX_PAGE_LIMIT,
{
    if limit == 0 {
        DEFAULT_PAGE_LIMIT
    } else if limit > MAX_PAGE_LIMIT {
        MAX_PAGE_LIMIT
    } else {
        limit
    }
}

/// Size and next cursor of the page that starts at `from` in a list of `len`
/// items.  Cursors and lengths beyond `u32::MAX` are handled without overflow.
pub fn page_window(len: usize, from: u32, limit: u32) -> (r: (u32, u32))
    requires
        len <= u32::MAX,
    ensures
        r.0 as nat == page_count(len as nat, from as nat, limit),
        r.1 as nat == page_next_cursor(len as nat, from as nat, limit),
        r.0 <= MAX_PAGE_LIMIT,
{
    let lim = clamp_limit(limit);
    let len32 = len as u32;
    if from >= len32 {
        return (0, 0);
    }
    let rest = len32 - from;
    if rest < lim {
        (rest, 0)
    } else {
        (lim, from + lim)
    }
}

/// A page never holds more than `MAX_PAGE_LIMIT` items, whatever the cursor
/// and the requested limit.
pub proof fn lemma_page_bounded(len: nat, from: nat, limit: u32)
    ensures
        page_count(len, from, limit) <= MAX_PAGE_LIMIT,
        from < len ==> page_count(len, from, limit) >= 1,
        from + page_count(len, from, limit) <= len || page_count(len, from, limit) == 0,
{
}

/// A page that carries a non-zero cursor is full, and its cursor is the
/// position right after it; a page that carries the cursor `0` reaches the
/// end of the list.
pub proof fn lemma_cursor_meaning(len: nat, from: nat, limit: u32)
    ensures
        page_next_cursor(len, from, limit) != 0 ==> {
            &&& page_count(len, from, limit) == effective_limit(limit)
            &&& page_next_cursor(len, from, limit) == from + page_count(len, from, limit)
            &&& page_next_cursor(len, from, limit) <= len
        },
        page_next_cursor(len, from, limit) == 0 ==> from >= len || from + page_count(
            len,
            from,
            limit,
        ) == len,
{
}

/// Following the cursors from any position of a list yields every item from
/// that position to the end, each exactly once and in order.
pub proof fn lemma_follow_pages_covers<A>(s: Seq<A>, from: nat, limit: u32)
    requires
        from <= s.len(),
    ensures
        follow_pages(s, from, limit) =~= s.subrange(from as int, s.len() as int),
    decreases s.len() - from,
{
    if from < s.len() {
        let next = page_next_cursor(s.len(), from, limit);
        if next == 0 || next <= from {
        } else {
            lemma_follow_pages_covers(s, next, limit);
        }
    }
}

/// The page size asked for is the one used, unless it is zero (then the
/// default of twenty) or above the maximum of fifty (then fifty).
pub proof fn lemma_limit_honoured(limit: u32)
    ensures
        limit == 0 ==> effective_limit(limit) == 20,
        1 <= limit <= 50 ==> effective_limit(limit) == limit,
        limit > 50 ==> effective_limit(limit) == 50,
{
}

/// A page that starts where at least `limit` items remain holds exactly
/// `limit` items when `limit` is between 1 and 50, and carries the cursor of
/// the position right after them; where fewer items remain it holds all of
/// them and carries the cursor `0`.
pub proof fn lemma_page_holds_what_was_asked(len: nat, from: nat, limit: u32)
    requires
        1 <= limit <= 50,
    ensures
        from + limit <= len ==> page_count(len, from, limit) == limit && page_next_cursor(
            len,
            from,
            limit,
        ) == from + limit,
        from < len < from + limit ==> page_count(len, from, limit) == len - from
            && page_next_cursor(len, from, limit) == 0,
        len <= from ==> page_count(len, from, limit) == 0 && page_next_cursor(len, from, limit)
            == 0,
{
}

} // verus!
