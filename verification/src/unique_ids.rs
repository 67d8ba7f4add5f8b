//! The node that hands out identifiers: its own name, a hyphen, and a
//! count. No two of one node are alike, and none of two nodes.

use vstd::prelude::*;
use vstd::string::StringExecFns;
use crate::node::{Node, State};
use crate::{AtomicResponce, NodeError, Outgoing};

verus! {

/// What the node takes.
pub enum IPayload {
    /// A request for an identifier.
    Generate,
}

/// What the node sends.
pub enum OPayload {
    /// An identifier that nobody else has.
    GenerateOk { guid: String },
}

/// The character of a decimal digit.
pub open spec fn digit(d: nat) -> char {
    if d == 0 {
        '0'
    } else if d == 1 {
        '1'
    } else if d == 2 {
        '2'
    } else if d == 3 {
        '3'
    } else if d == 4 {
        '4'
    } else if d == 5 {
        '5'
    } else if d == 6 {
        '6'
    } else if d == 7 {
        '7'
    } else if d == 8 {
        '8'
    } else {
        '9'
    }
}

/// A number in decimal digits, without leading zeros.
pub open spec fn decimal(n: nat) -> Seq<char>
    decreases n,
{
    if n < 10 {
        seq![digit(n)]
    } else {
        decimal(n / 10).push(digit(n % 10))
    }
}

/// The identifier that node `name` hands out as its `count`-th.
pub open spec fn label(name: Seq<char>, count: nat) -> Seq<char> {
    name + seq!['-'] + decimal(count)
}

fn digit_str(d: usize) -> (r: &'static str)
    requires
        d < 10,
    ensures
        r@ == seq![digit(d as nat)],
{
    proof {
        reveal_strlit("0");
        reveal_strlit("1");
        reveal_strlit("2");
        reveal_strlit("3");
        reveal_strlit("4");
        reveal_strlit("5");
        reveal_strlit("6");
        reveal_strlit("7");
        reveal_strlit("8");
        reveal_strlit("9");
    }
    let r = if d == 0 {
        "0"
    } else if d == 1 {
        "1"
    } else if d == 2 {
        "2"
    } else if d == 3 {
        "3"
    } else if d == 4 {
        "4"
    } else if d == 5 {
        "5"
    } else if d == 6 {
        "6"
    } else if d == 7 {
        "7"
    } else if d == 8 {
        "8"
    } else {
        "9"
    };
    assert(r@ =~= seq![digit(d as nat)]);
    r
}

/// Writes `n` in decimal digits.
pub fn decimal_string(n: usize) -> (s: String)
    ensures
        s@ == decimal(n as nat),
    decreases n,
{
    if n < 10 {
        String::from_str(digit_str(n))
    } else {
        let s = decimal_string(n / 10).concat(digit_str(n % 10));
        assert(s@ =~= decimal(n as nat));
        s
    }
}

/// The node: its session and the count of identifiers handed out.
pub struct GenerateNode<W> {
    state: State<W>,
    generated_id_counter: usize,
}

impl<W> GenerateNode<W> {
    /// How many identifiers the node has handed out.
    pub closed spec fn issued(&self) -> usize {
        self.generated_id_counter
    }
}

impl<W> Node<IPayload, OPayload, W> for GenerateNode<W> {
    type Response = AtomicResponce<OPayload>;

    closed spec fn state(&self) -> State<W> {
        self.state
    }

    /// Hands the sender of the request at hand the next identifier. Once
    /// the count has reached the largest number, the node hands out none.
    fn step(&mut self, payload: IPayload) -> (r: Result<AtomicResponce<OPayload>, NodeError>)
        ensures
            r is Ok <==> old(self).issued() < usize::MAX,
            match r {
                Ok(res) => {
                    &&& final(self).issued() == old(self).issued() + 1
                    &&& res@.recipient == old(self).state()@.sender
                    &&& res@.is_reply
                    &&& res@.payload->guid@ == label(
                        old(self).state()@.node_id,
                        final(self).issued() as nat,
                    )
                },
                Err(e) => e == NodeError::CounterExhausted && final(self).issued() == old(self).issued(),
            },
    {
        if self.generated_id_counter == usize::MAX {
            return Err(NodeError::CounterExhausted);
        }
        self.generated_id_counter = self.generated_id_counter + 1;
        let count = decimal_string(self.generated_id_counter);
        let guid = self.state.node_id().to_string().concat("-").concat(count.as_str());
        proof {
            reveal_strlit("-");
            assert("-"@ =~= seq!['-']);
        }
        Ok(self.state.reply(OPayload::GenerateOk { guid }))
    }

    /// A node that has handed out nothing.
    fn with_initial_state(state: State<W>) -> (node: Self)
        ensures
            node.issued() == 0,
    {
        Self { state, generated_id_counter: 0 }
    }

    fn get_state(&self) -> (s: &State<W>) {
        &self.state
    }

    /// The session. The count stays as it is.
    fn get_state_mut(&mut self) -> (s: &mut State<W>)
        ensures
            final(self).issued() == old(self).issued(),
    {
        &mut self.state
    }
}

/// A number in decimal has a digit at least, two from ten on, and no
/// hyphen.
pub proof fn lemma_decimal_is_digits(n: nat)
    ensures
        decimal(n).len() >= 1,
        n >= 10 ==> decimal(n).len() >= 2,
        forall|i: int| 0 <= i < decimal(n).len() ==> decimal(n)[i] != '-',
    decreases n,
{
    if n >= 10 {
        lemma_decimal_is_digits(n / 10);
    }
}

/// Two numbers that are written alike are the same number.
pub proof fn law_decimal_is_injective(a: nat, b: nat)
    requires
        decimal(a) == decimal(b),
    ensures
        a == b,
    decreases a,
{
    lemma_decimal_is_digits(a);
    lemma_decimal_is_digits(b);
    if a < 10 && b < 10 {
        assert(decimal(a)[0] == digit(a));
        assert(decimal(b)[0] == digit(b));
    } else if a < 10 || b < 10 {
        assert(decimal(a).len() == decimal(b).len());
    } else {
        assert(decimal(a).drop_last() =~= decimal(a / 10));
        assert(decimal(b).drop_last() =~= decimal(b / 10));
        assert(decimal(a).last() == digit(a % 10));
        assert(decimal(b).last() == digit(b % 10));
        law_decimal_is_injective(a / 10, b / 10);
        assert(a % 10 == b % 10);
    }
}

/// Two identifiers that are alike come from one node and one count: no
/// node hands out an identifier twice, and no two nodes the same.
pub proof fn law_labels_are_unique(first: Seq<char>, a: nat, second: Seq<char>, b: nat)
    requires
        label(first, a) == label(second, b),
    ensures
        first == second,
        a == b,
{
    lemma_decimal_is_digits(a);
    lemma_decimal_is_digits(b);
    let one = label(first, a);
    let two = label(second, b);
    assert(one.len() == first.len() + 1 + decimal(a).len());
    assert(two.len() == second.len() + 1 + decimal(b).len());
    if first.len() < second.len() {
        assert(two[second.len() as int] == '-');
        assert(one[second.len() as int] == decimal(a)[second.len() - first.len() - 1]);
    } else if second.len() < first.len() {
        assert(one[first.len() as int] == '-');
        assert(two[first.len() as int] == decimal(b)[first.len() - second.len() - 1]);
    } else {
        assert(first =~= second) by {
            assert forall|i: int| 0 <= i < first.len() implies first[i] == second[i] by {
                assert(one[i] == first[i]);
                assert(two[i] == second[i]);
            }
        }
        assert(decimal(a) =~= decimal(b)) by {
            assert forall|i: int| 0 <= i < decimal(a).len() implies decimal(a)[i] == decimal(b)[i] by {
                assert(one[first.len() + 1 + i] == decimal(a)[i]);
                assert(two[second.len() + 1 + i] == decimal(b)[i]);
            }
        }
        law_decimal_is_injective(a, b);
    }
}

} // verus!
