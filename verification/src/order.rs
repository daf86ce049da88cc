use crate::types::{OrderId, Price, ProductId, Quantity, Timestamp};
use vstd::prelude::*;

verus! {

/// The side of the book an order rests on.
#[derive(Debug, Copy, Clone, PartialEq, Eq, Structural)]
pub enum Side {
    Bid,
    Ask,
}

/// Where an order stands in its life.
#[derive(Debug, Clone, PartialEq, Eq)]
pub enum OrderStatus {
    New,
    Accepted,
    PartiallyFilled { remaining: Quantity },
    Filled,
    Cancelled,
    Rejected { reason: String },
}

/// An order; a plain carrier of data, so its fields are public.
#[derive(Debug, Clone, PartialEq, Eq)]
pub struct Order {
    pub id: OrderId,
    pub status: OrderStatus,
    pub side: Side,
    pub price: Price,
    pub quantity: Quantity,
    pub timestamp: Timestamp,
    pub product_id: ProductId,
}

/// The character of a decimal digit `d < 10`.
pub open spec fn digit_char(d: int) -> char {
    if d == 0 {
        '0'
    } else if d == 1 {
        '1'
    } else if d == 2 {
        '2'
    } else if d == 3 {
        '3'
    } else if d == 4 {
        '4'
    } else if d == 5 {
        '5'
    } else if d == 6 {
        '6'
    } else if d == 7 {
        '7'
    } else if d == 8 {
        '8'
    } else {
        '9'
    }
}

/// The decimal digits of `n`, most significant first, without leading zeros.
pub open spec fn decimal_digits(n: nat) -> Seq<char>
    decreases n,
{
    if n < 10 {
        seq![digit_char(n as int)]
    } else {
        decimal_digits(n / 10).push(digit_char((n % 10) as int))
    }
}

/// The number that the decimal digits `s` spell (each a character `'0'` to `'9'`).
pub open spec fn digits_value(s: Seq<char>) -> int
    decreases s.len(),
{
    if s.len() == 0 {
        0
    } else {
        digits_value(s.drop_last()) * 10 + (s.last() as int - '0' as int)
    }
}

/// `c` is one of the characters `'0'` to `'9'`.
pub open spec fn is_digit_char(c: char) -> bool {
    '0' as int <= c as int <= '9' as int
}

/// The character of digit `d` stands for `d`.
proof fn lemma_digit_char(d: int)
    requires
        0 <= d < 10,
    ensures
        digit_char(d) as int - '0' as int == d,
        is_digit_char(digit_char(d)),
        digit_char(d) == '0' ==> d == 0,
{
    assert('0' as int == 48);
    assert('1' as int == 49);
    assert('2' as int == 50);
    assert('3' as int == 51);
    assert('4' as int == 52);
    assert('5' as int == 53);
    assert('6' as int == 54);
    assert('7' as int == 55);
    assert('8' as int == 56);
    assert('9' as int == 57);
}

/// `decimal_digits(n)` is the decimal numeral of `n`: it is made of digits only, spells `n`,
/// and starts with a zero only when it is `"0"`.
pub proof fn law_decimal_digits(n: nat)
    ensures
        decimal_digits(n).len() > 0,
        forall|i: int| 0 <= i < decimal_digits(n).len() ==> is_digit_char(#[trigger] decimal_digits(n)[i]),
        digits_value(decimal_digits(n)) == n,
        decimal_digits(n)[0] == '0' ==> n == 0 && decimal_digits(n).len() == 1,
    decreases n,
{
    let d = decimal_digits(n);
    if n < 10 {
        lemma_digit_char(n as int);
        assert(d == seq![digit_char(n as int)]);
        assert(d.drop_last() =~= Seq::<char>::empty());
        assert(d.last() == digit_char(n as int));
        assert(digits_value(d) == digits_value(d.drop_last()) * 10 + (d.last() as int - '0' as int));
        assert(digits_value(d.drop_last()) == 0);
    } else {
        law_decimal_digits(n / 10);
        lemma_digit_char((n % 10) as int);
        let h = decimal_digits(n / 10);
        assert(d == h.push(digit_char((n % 10) as int)));
        assert(d.drop_last() =~= h);
        assert(d.last() == digit_char((n % 10) as int));
        assert(digits_value(d) == digits_value(h) * 10 + (n % 10));
        assert((n / 10) * 10 + n % 10 == n);
        assert forall|i: int| 0 <= i < d.len() implies is_digit_char(#[trigger] d[i]) by {
            if i < h.len() {
                assert(d[i] == h[i]);
            }
        }
        assert(d[0] == h[0]);
    }
}

/// The text that describes an order status.
pub open spec fn status_description(status: OrderStatus) -> Seq<char> {
    match status {
        OrderStatus::New => "New Order"@,
        OrderStatus::Accepted => "Order Accepted"@,
        OrderStatus::PartiallyFilled { remaining } => "Order Partially Filled, remaining: "@
            + decimal_digits(remaining.0 as nat),
        OrderStatus::Filled => "Order Filled!"@,
        OrderStatus::Cancelled => "Order Cancelled"@,
        OrderStatus::Rejected { reason } => "Order Rejected: "@ + reason@,
    }
}

/// The text of one decimal digit.
fn digit_text(d: u64) -> (r: &'static str)
    requires
        d < 10,
    ensures
        r@ == seq![digit_char(d as int)],
{
    if d == 0 {
        proof {
            reveal_strlit("0");
        }
        "0"
    } else if d == 1 {
        proof {
            reveal_strlit("1");
        }
        "1"
    } else if d == 2 {
        proof {
            reveal_strlit("2");
        }
        "2"
    } else if d == 3 {
        proof {
            reveal_strlit("3");
        }
        "3"
    } else if d == 4 {
        proof {
            reveal_strlit("4");
        }
        "4"
    } else if d == 5 {
        proof {
            reveal_strlit("5");
        }
        "5"
    } else if d == 6 {
        proof {
            reveal_strlit("6");
        }
        "6"
    } else if d == 7 {
        proof {
            reveal_strlit("7");
        }
        "7"
    } else if d == 8 {
        proof {
            reveal_strlit("8");
        }
        "8"
    } else {
        proof {
            reveal_strlit("9");
        }
        "9"
    }
}

/// Appends the decimal digits of `n` to `text`.
fn append_decimal(text: &mut String, n: u64)
    ensures
        final(text)@ == old(text)@ + decimal_digits(n as nat),
    decreases n,
{
    if n >= 10 {
        append_decimal(text, n / 10);
    }
    let digit = digit_text(n % 10);
    text.append(digit);
    proof {
        assert(final(text)@ =~= old(text)@ + decimal_digits(n as nat));
    }
}

impl Order {
    /// A new order, in status `New`.
    pub fn new(
        id: OrderId,
        side: Side,
        price: Price,
        quantity: Quantity,
        timestamp: Timestamp,
        product_id: ProductId,
    ) -> (r: Self)
        ensures
            r == (Order { id, status: OrderStatus::New, side, price, quantity, timestamp, product_id }),
    {
        Self { id, side, status: OrderStatus::New, price, quantity, timestamp, product_id }
    }

    /// Describes the order's status in words.
    pub fn describe_status(&self) -> (r: String)
        ensures
            r@ == status_description(self.status),
            self.status is New ==> r@ == "New Order"@,
            self.status is Accepted ==> r@ == "Order Accepted"@,
            self.status matches OrderStatus::PartiallyFilled { remaining } ==> r@
                == "Order Partially Filled, remaining: "@ + decimal_digits(remaining.0 as nat),
            self.status is Filled ==> r@ == "Order Filled!"@,
            self.status is Cancelled ==> r@ == "Order Cancelled"@,
            self.status matches OrderStatus::Rejected { reason } ==> r@ == "Order Rejected: "@
                + reason@,
    {
        match &self.status {
            OrderStatus::New => String::from_str("New Order"),
            OrderStatus::Accepted => String::from_str("Order Accepted"),
            OrderStatus::PartiallyFilled { remaining } => {
                let mut text = String::from_str("Order Partially Filled, remaining: ");
                append_decimal(&mut text, remaining.0);
                text
            },
            OrderStatus::Filled => String::from_str("Order Filled!"),
            OrderStatus::Cancelled => String::from_str("Order Cancelled"),
            OrderStatus::Rejected { reason } => {
                let mut text = String::from_str("Order Rejected: ");
                text.append(reason.as_str());
                text
            },
        }
    }
}

} // verus!
