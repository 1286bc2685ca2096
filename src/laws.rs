//! Properties of the calculator that hold over all states and inputs.
use vstd::prelude::*;
use crate::engine::{error_text, Model};
use crate::text::{is_digit, is_unsigned_text, point_count};

verus! {

/// `clear` from any state gives the state at start.
pub proof fn clear_resets(m: Model)
    ensures
        m.clear() == Model::initial(),
{
}

/// Clearing twice is the same as clearing once.
pub proof fn clear_is_idempotent(m: Model)
    ensures
        m.clear().clear() == m.clear(),
{
}

/// The state after pressing, one by one, the keys written in `s`: a point
/// for `.` and a digit for any other character.
pub open spec fn enter_text(m: Model, s: Seq<char>) -> Model
    decreases s.len(),
{
    if s.len() == 0 {
        m
    } else {
        let prev = enter_text(m, s.drop_last());
        if s.last() == '.' {
            prev.decimal_point()
        } else {
            prev.digit(s.last())
        }
    }
}

/// Decimal text as it can be typed: digits with at most one point, starting
/// with a digit, and no zero in front of another digit.
pub open spec fn is_typed_number(s: Seq<char>) -> bool {
    &&& is_unsigned_text(s)
    &&& s[0] == '0' ==> s.len() == 1 || s[1] == '.'
}

proof fn lemma_no_point(s: Seq<char>)
    requires
        point_count(s) == 0,
    ensures
        !s.contains('.'),
    decreases s.len(),
{
    if s.len() > 0 {
        lemma_no_point(s.drop_last());
        assert forall|i: int| 0 <= i < s.len() implies s[i] != '.' by {
            if i < s.len() - 1 {
                assert(s.drop_last()[i] == s[i]);
            }
        }
    }
}

/// Typing a number from the state at start shows exactly that number.
pub proof fn entered_text_is_shown(s: Seq<char>)
    requires
        is_typed_number(s),
    ensures
        enter_text(Model::initial(), s) == (Model { display: s, ..Model::initial() }),
    decreases s.len(),
{
    if s.len() == 1 {
        assert(s.drop_last() =~= Seq::<char>::empty());
        assert(seq![s[0]] =~= s);
    } else {
        let p = s.drop_last();
        assert(p[0] == s[0]);
        assert forall|i: int| 0 <= i < p.len() implies is_digit(#[trigger] p[i]) || p[i] == '.' by {
            assert(p[i] == s[i]);
        }
        if p[0] == '0' && p.len() > 1 {
            assert(p[1] == s[1]);
        }
        entered_text_is_shown(p);
        assert(p != error_text());
        assert(s =~= p.push(s.last()));
        if s.last() == '.' {
            lemma_no_point(p);
        } else {
            if p =~= seq!['0'] {
                assert(s[1] == s.last());
            }
        }
    }
}

} // verus!
