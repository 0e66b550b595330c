//! Loops and a function call, as computations: each function returns what
//! it counts through, and its caller decides how to show it.
use vstd::prelude::*;

verus! {

/// Adds one to `x`.
pub fn another_function(x: i32) -> (r: i32)
    requires
        x < i32::MAX,
    ensures
        r == x + 1,
{
    x + 1
}

/// One step of the nested counting loop: the outer counter or the inner one.
#[derive(Debug, Clone, Copy, PartialEq, Eq)]
pub enum LoopEvent {
    Count(u32),
    Remaining(u32),
}

/// The events of the first `c` full rounds of the outer loop.
pub open spec fn rounds(c: nat) -> Seq<LoopEvent>
    decreases c,
{
    if c == 0 {
        Seq::empty()
    } else {
        rounds((c - 1) as nat) + seq![
            LoopEvent::Count((c - 1) as u32),
            LoopEvent::Remaining(10),
            LoopEvent::Remaining(9),
        ]
    }
}

/// Everything the counting loop goes through: two full rounds, then the
/// third round, which leaves both loops at once.
pub open spec fn counting_trace() -> Seq<LoopEvent> {
    rounds(2) + seq![LoopEvent::Count(2), LoopEvent::Remaining(10)]
}

/// Counts up in an outer loop and down in an inner one, leaving the inner
/// loop at 9 and both loops when the outer count reaches 2. Returns the
/// counters in the order they were reached, and the final count.
pub fn looped_function() -> (r: (Vec<LoopEvent>, u32))
    ensures
        r.0@ == counting_trace(),
        r.1 == 2,
{
    let mut out: Vec<LoopEvent> = Vec::new();
    let mut count: u32 = 0;
    'counting_up: loop
        invariant_except_break
            count <= 2,
            out@ == rounds(count as nat),
        ensures
            count == 2,
            out@ == counting_trace(),
        decreases 3 - count,
    {
        out.push(LoopEvent::Count(count));
        let mut remaining: u32 = 10;
        loop
            invariant_except_break
                9 <= remaining <= 10,
                count <= 2,
                remaining == 9 ==> count < 2,
                out@ == rounds(count as nat) + seq![LoopEvent::Count(count)] + if remaining == 10 {
                    Seq::<LoopEvent>::empty()
                } else {
                    seq![LoopEvent::Remaining(10)]
                },
            ensures
                count < 2,
                out@ == rounds(count as nat) + seq![
                    LoopEvent::Count(count),
                    LoopEvent::Remaining(10),
                    LoopEvent::Remaining(9),
                ],
            decreases remaining,
        {
            out.push(LoopEvent::Remaining(remaining));
            if remaining == 9 {
                assert(out@ =~= rounds(count as nat) + seq![
                    LoopEvent::Count(count),
                    LoopEvent::Remaining(10),
                    LoopEvent::Remaining(9),
                ]);
                break ;
            }
            if count == 2 {
                assert(out@ =~= counting_trace());
                break 'counting_up;
            }
            remaining -= 1;
            assert(out@ =~= rounds(count as nat) + seq![LoopEvent::Count(count)] + seq![
                LoopEvent::Remaining(10),
            ]);
        }
        count += 1;
        assert(rounds(count as nat) == rounds((count - 1) as nat) + seq![
            LoopEvent::Count((count - 1) as u32),
            LoopEvent::Remaining(10),
            LoopEvent::Remaining(9),
        ]);
    }
    (out, count)
}

/// Counts down from 3 while the number is not 0: 3, 2, 1.
pub fn countdown() -> (r: Vec<u32>)
    ensures
        r@ == seq![3u32, 2, 1],
{
    let mut out: Vec<u32> = Vec::new();
    let mut number: u32 = 3;
    while number != 0
        invariant
            number <= 3,
            out@ == seq![3u32, 2, 1].take(3 - number),
        decreases number,
    {
        out.push(number);
        assert(out@ =~= seq![3u32, 2, 1].take(3 - number + 1));
        number -= 1;
    }
    assert(seq![3u32, 2, 1].take(3) =~= seq![3u32, 2, 1]);
    out
}

/// Goes through an array, then through `1..4` backwards; returns what each
/// pass visits: 10, 20, 30, 40, 50, and 3, 2, 1.
pub fn for_loop() -> (r: (Vec<i32>, Vec<i32>))
    ensures
        r.0@ == seq![10i32, 20, 30, 40, 50],
        r.1@ == seq![3i32, 2, 1],
{
    let a: [i32; 5] = [10, 20, 30, 40, 50];
    let mut elements: Vec<i32> = Vec::new();
    let mut i: usize = 0;
    while i < 5
        invariant
            i <= 5,
            a@ == seq![10i32, 20, 30, 40, 50],
            elements@ == a@.take(i as int),
        decreases 5 - i,
    {
        elements.push(a[i]);
        assert(elements@ =~= a@.take(i as int + 1));
        i += 1;
    }
    assert(a@.take(5) =~= a@);
    let mut numbers: Vec<i32> = Vec::new();
    let mut number: i32 = 4;
    while number > 1
        invariant
            1 <= number <= 4,
            numbers@ == seq![3i32, 2, 1].take(4 - number),
        decreases number,
    {
        number -= 1;
        numbers.push(number);
        assert(numbers@ =~= seq![3i32, 2, 1].take(4 - number));
    }
    assert(seq![3i32, 2, 1].take(3) =~= seq![3i32, 2, 1]);
    (elements, numbers)
}

} // verus!
