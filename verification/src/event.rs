//! The event that stands for one measure, and the text of its identifier.
use vstd::prelude::*;

verus! {

/// One measure of one part.
#[derive(Debug, Clone, PartialEq, Eq)]
pub struct Event {
    /// `M` followed by the decimal number of the measure.
    pub id: String,
    /// The number of the measure, counted from 1 over the whole score.
    pub bar: Option<u32>,
    /// The beat of the bar on which the event falls, counted from 1.
    pub beat: Option<u32>,
    /// The time of the event in milliseconds, where it is known.
    pub time_ms: Option<u32>,
    /// The instruments that play the measure.
    pub instruments: Vec<String>,
}

/// What an [`Event`] is to a contract.
pub ghost struct EventView {
    pub id: Seq<char>,
    pub bar: Option<u32>,
    pub beat: Option<u32>,
    pub time_ms: Option<u32>,
    pub instruments: Seq<Seq<char>>,
}

impl View for Event {
    type V = EventView;

    open spec fn view(&self) -> EventView {
        EventView {
            id: self.id@,
            bar: self.bar,
            beat: self.beat,
            time_ms: self.time_ms,
            instruments: Seq::new(self.instruments@.len(), |i: int| self.instruments@[i]@),
        }
    }
}

/// The character that writes the digit `d`.
pub open spec fn digit_char(d: nat) -> char {
    if d == 0 {
        '0'
    } else if d == 1 {
        '1'
    } else if d == 2 {
        '2'
    } else if d == 3 {
        '3'
    } else if d == 4 {
        '4'
    } else if d == 5 {
        '5'
    } else if d == 6 {
        '6'
    } else if d == 7 {
        '7'
    } else if d == 8 {
        '8'
    } else {
        '9'
    }
}

/// The decimal numeral of `n`: no sign, no leading zero, `0` for zero.
pub open spec fn decimal(n: nat) -> Seq<char>
    decreases n,
{
    if n < 10 {
        seq![digit_char(n)]
    } else {
        decimal(n / 10).push(digit_char(n % 10))
    }
}

/// The identifier of measure number `n`.
pub open spec fn measure_id_spec(n: nat) -> Seq<char> {
    seq!['M'] + decimal(n)
}

/// The event of measure number `n`, played by `instrument`.
pub open spec fn measure_event(n: nat, instrument: Seq<char>) -> EventView {
    EventView {
        id: measure_id_spec(n),
        bar: Some(n as u32),
        beat: Some(1u32),
        time_ms: None,
        instruments: seq![instrument],
    }
}

proof fn lemma_decimal_len(n: nat)
    ensures
        decimal(n).len() >= 1,
        n >= 10 ==> decimal(n).len() >= 2,
    decreases n,
{
    if n >= 10 {
        lemma_decimal_len(n / 10);
    }
}

/// Two numbers with one numeral are one number.
pub proof fn decimal_is_injective(a: nat, b: nat)
    requires
        decimal(a) == decimal(b),
    ensures
        a == b,
    decreases a,
{
    lemma_decimal_len(a);
    lemma_decimal_len(b);
    if a < 10 && b < 10 {
        assert(decimal(a)[0] == digit_char(a));
        assert(decimal(b)[0] == digit_char(b));
    } else if a >= 10 && b >= 10 {
        let front_a = decimal(a / 10);
        let front_b = decimal(b / 10);
        assert(decimal(a).last() == digit_char(a % 10));
        assert(decimal(b).last() == digit_char(b % 10));
        assert(decimal(a).drop_last() =~= front_a);
        assert(decimal(b).drop_last() =~= front_b);
        decimal_is_injective(a / 10, b / 10);
    }
}

/// Two measures with one identifier are one measure.
pub proof fn measure_id_is_injective(a: nat, b: nat)
    requires
        measure_id_spec(a) == measure_id_spec(b),
    ensures
        a == b,
{
    assert(measure_id_spec(a).subrange(1, measure_id_spec(a).len() as int) =~= decimal(a));
    assert(measure_id_spec(b).subrange(1, measure_id_spec(b).len() as int) =~= decimal(b));
    decimal_is_injective(a, b);
}

fn digit_str(d: u32) -> (r: &'static str)
    requires
        d < 10,
    ensures
        r@ == seq![digit_char(d as nat)],
{
    proof {
        reveal_strlit("0");
        reveal_strlit("1");
        reveal_strlit("2");
        reveal_strlit("3");
        reveal_strlit("4");
        reveal_strlit("5");
        reveal_strlit("6");
        reveal_strlit("7");
        reveal_strlit("8");
        reveal_strlit("9");
    }
    let r = if d == 0 {
        "0"
    } else if d == 1 {
        "1"
    } else if d == 2 {
        "2"
    } else if d == 3 {
        "3"
    } else if d == 4 {
        "4"
    } else if d == 5 {
        "5"
    } else if d == 6 {
        "6"
    } else if d == 7 {
        "7"
    } else if d == 8 {
        "8"
    } else {
        "9"
    };
    assert(r@ =~= seq![digit_char(d as nat)]);
    r
}

/// Appends the decimal numeral of `n` to `out`.
fn push_decimal(out: &mut String, n: u32)
    ensures
        final(out)@ == old(out)@ + decimal(n as nat),
    decreases n,
{
    if n >= 10 {
        push_decimal(out, n / 10);
    }
    out.append(digit_str(n % 10));
    assert(out@ =~= old(out)@ + decimal(n as nat));
}

/// Writes the identifier of measure number `n`.
pub fn measure_id(n: u32) -> (id: String)
    ensures
        id@ == measure_id_spec(n as nat),
{
    proof {
        reveal_strlit("M");
    }
    let mut id = String::from_str("M");
    assert(id@ =~= seq!['M']);
    push_decimal(&mut id, n);
    id
}

impl Event {
    /// The event of measure number `n`, played by `instrument`.
    pub fn of_measure(n: u32, instrument: &String) -> (event: Event)
        ensures
            event@ == measure_event(n as nat, instrument@),
    {
        let mut instruments: Vec<String> = Vec::new();
        instruments.push(instrument.clone());
        let event = Event {
            id: measure_id(n),
            bar: Some(n),
            beat: Some(1),
            time_ms: None,
            instruments,
        };
        assert(event@.instruments =~= seq![instrument@]);
        event
    }
}

} // verus!
