use vstd::prelude::*;

use rand_seeder::SipRng;

use crate::model::{Attribute, AttributeValue, Clue, Value};
use crate::random::choose_text;

verus! {

/// The decimal digits of `n`, most significant first.
pub open spec fn decimal(n: nat) -> Seq<char>
    decreases n,
{
    if n < 10 {
        seq![digit_char(n)]
    } else {
        decimal(n / 10) + seq![digit_char(n % 10)]
    }
}

/// The character of decimal digit `d`.
pub open spec fn digit_char(d: nat) -> char {
    seq!['0', '1', '2', '3', '4', '5', '6', '7', '8', '9'][d as int]
}

fn digit_str(d: usize) -> (r: &'static str)
    requires
        d < 10,
    ensures
        r@ == seq![digit_char(d as nat)],
{
    proof {
        reveal_strlit("0");
        reveal_strlit("1");
        reveal_strlit("2");
        reveal_strlit("3");
        reveal_strlit("4");
        reveal_strlit("5");
        reveal_strlit("6");
        reveal_strlit("7");
        reveal_strlit("8");
        reveal_strlit("9");
    }
    if d == 0 {
        "0"
    } else if d == 1 {
        "1"
    } else if d == 2 {
        "2"
    } else if d == 3 {
        "3"
    } else if d == 4 {
        "4"
    } else if d == 5 {
        "5"
    } else if d == 6 {
        "6"
    } else if d == 7 {
        "7"
    } else if d == 8 {
        "8"
    } else {
        "9"
    }
}

/// `n` written in decimal.
pub fn decimal_string(n: usize) -> (r: String)
    ensures
        r@ == decimal(n as nat),
    decreases n,
{
    if n < 10 {
        String::from_str(digit_str(n))
    } else {
        let mut s = decimal_string(n / 10);
        s.append(digit_str(n % 10));
        s
    }
}

/// The text of a value: a position in decimal, a categorical value as it is.
pub open spec fn value_text(v: Value) -> Seq<char> {
    match v {
        Value::Pos(p) => decimal(p as nat),
        Value::Str(s) => s@,
    }
}

/// How an attribute value is named in prose; `None` for an attribute with
/// no wording.
pub open spec fn phrase(attribute: Attribute, v: Value) -> Option<Seq<char>> {
    match attribute {
        Attribute::Pos => Some("the monk who occupies cell "@ + value_text(v)),
        Attribute::Str(name) => if name@ == "name"@ {
            Some("Brother "@ + value_text(v))
        } else if name@ == "age"@ {
            Some("the monk who is "@ + value_text(v) + " years of age"@)
        } else if name@ == "town"@ {
            Some("the monk who hails from "@ + value_text(v))
        } else if name@ == "saint"@ {
            Some("the monk whose patron saint is "@ + value_text(v))
        } else {
            None
        },
    }
}

/// The wording of arena value `x`; `None` when `x` or its attribute is out of
/// range or the attribute has no wording.
pub open spec fn phrase_of(attributes: Seq<Attribute>, values: Seq<AttributeValue>, x: int) -> Option<
    Seq<char>,
> {
    if 0 <= x < values.len() && values[x].attribute < attributes.len() {
        phrase(attributes[values[x].attribute as int], values[x].value)
    } else {
        None
    }
}

fn value_string(v: &Value) -> (r: String)
    ensures
        r@ == value_text(*v),
{
    match v {
        Value::Pos(p) => decimal_string(*p),
        Value::Str(s) => s.clone(),
    }
}

/// The prose name of arena value `x`.
pub fn describe(attributes: &Vec<Attribute>, values: &Vec<AttributeValue>, x: usize) -> (r: Option<
    String,
>)
    ensures
        match phrase_of(attributes@, values@, x as int) {
            Some(p) => r matches Some(s) && s@ == p,
            None => r is None,
        },
{
    if x >= values.len() || values[x].attribute >= attributes.len() {
        return None;
    }
    let av = &values[x];
    let text = value_string(&av.value);
    match &attributes[av.attribute] {
        Attribute::Pos => {
            let mut s = String::from_str("the monk who occupies cell ");
            s.append(text.as_str());
            Some(s)
        },
        Attribute::Str(name) => {
            let name_word = String::from_str("name");
            let age_word = String::from_str("age");
            let town_word = String::from_str("town");
            let saint_word = String::from_str("saint");
            if *name == name_word {
                let mut s = String::from_str("Brother ");
                s.append(text.as_str());
                Some(s)
            } else if *name == age_word {
                let mut s = String::from_str("the monk who is ");
                s.append(text.as_str());
                s.append(" years of age");
                Some(s)
            } else if *name == town_word {
                let mut s = String::from_str("the monk who hails from ");
                s.append(text.as_str());
                Some(s)
            } else if *name == saint_word {
                let mut s = String::from_str("the monk whose patron saint is ");
                s.append(text.as_str());
                Some(s)
            } else {
                None
            }
        },
    }
}

/// The sentence of a clue whose values read `pa` and `pb`, with the chosen
/// verb `verb`.
pub open spec fn clue_sentence(c: Clue, pa: Seq<char>, verb: Seq<char>, pb: Seq<char>) -> Seq<char> {
    match c {
        Clue::Is(_, _) => pa + " "@ + verb + " "@ + pb,
        Clue::Left(_, _) => pa + " "@ + verb + " the cell to the left of "@ + pb,
        Clue::Right(_, _) => pa + " "@ + verb + " the cell to the right of "@ + pb,
        Clue::Neighbour(_, _) => pa + " "@ + verb + " a cell next to "@ + pb,
    }
}

/// The sentence of clue `c` with verb `verb`; `None` when one of its values
/// has no wording.
pub open spec fn clue_text(
    attributes: Seq<Attribute>,
    values: Seq<AttributeValue>,
    c: Clue,
    verb: Seq<char>,
) -> Option<Seq<char>> {
    match (
        phrase_of(attributes, values, c.first() as int),
        phrase_of(attributes, values, c.second() as int),
    ) {
        (Some(pa), Some(pb)) => Some(clue_sentence(c, pa, verb, pb)),
        _ => None,
    }
}

/// The verbs offered for an `Is` clue.
pub open spec fn is_verbs() -> Seq<Seq<char>> {
    seq!["is"@, "is actually"@, "is, in fact,"@, "is almost certainly"@, "is without a doubt"@]
}

/// The verbs offered for the other clues.
pub open spec fn side_verbs() -> Seq<Seq<char>> {
    seq!["resides in"@, "occupies"@, "lives in"@]
}

/// The verbs offered for clue `c`.
pub open spec fn verbs_for(c: Clue) -> Seq<Seq<char>> {
    match c {
        Clue::Is(_, _) => is_verbs(),
        _ => side_verbs(),
    }
}

impl Clue {
    /// The sentence of this clue with the given verb.
    pub fn to_string_with(
        &self,
        attributes: &Vec<Attribute>,
        values: &Vec<AttributeValue>,
        verb: &str,
    ) -> (r: Option<String>)
        ensures
            match clue_text(attributes@, values@, *self, verb@) {
                Some(t) => r matches Some(s) && s@ == t,
                None => r is None,
            },
    {
        let (x, y) = match self {
            Clue::Is(x, y) => (*x, *y),
            Clue::Left(x, y) => (*x, *y),
            Clue::Right(x, y) => (*x, *y),
            Clue::Neighbour(x, y) => (*x, *y),
        };
        let pa = match describe(attributes, values, x) {
            Some(p) => p,
            None => {
                return None;
            },
        };
        let pb = match describe(attributes, values, y) {
            Some(p) => p,
            None => {
                return None;
            },
        };
        let mut s = pa;
        s.append(" ");
        s.append(verb);
        match self {
            Clue::Is(_, _) => s.append(" "),
            Clue::Left(_, _) => s.append(" the cell to the left of "),
            Clue::Right(_, _) => s.append(" the cell to the right of "),
            Clue::Neighbour(_, _) => s.append(" a cell next to "),
        }
        s.append(pb.as_str());
        Some(s)
    }

    /// The sentence of this clue with a verb drawn at random from those
    /// offered for its kind.
    pub fn to_string(
        &self,
        attributes: &Vec<Attribute>,
        values: &Vec<AttributeValue>,
        rng: &mut SipRng,
    ) -> (r: Option<String>)
        ensures
            exists|verb: Seq<char>|
                #[trigger] verbs_for(*self).contains(verb) && match clue_text(
                    attributes@,
                    values@,
                    *self,
                    verb,
                ) {
                    Some(t) => r matches Some(s) && s@ == t,
                    None => r is None,
                },
    {
        let verb = match self {
            Clue::Is(_, _) => {
                let options: [&'static str; 5] = [
                    "is",
                    "is actually",
                    "is, in fact,",
                    "is almost certainly",
                    "is without a doubt",
                ];
                let v = choose_text(options.as_slice(), rng);
                proof {
                    let k = choose|k: int| 0 <= k < 5 && options@[k] == v;
                    assert(is_verbs()[k] == v@);
                    assert(verbs_for(*self).contains(v@));
                }
                v
            },
            _ => {
                let options: [&'static str; 3] = ["resides in", "occupies", "lives in"];
                let v = choose_text(options.as_slice(), rng);
                proof {
                    let k = choose|k: int| 0 <= k < 3 && options@[k] == v;
                    assert(side_verbs()[k] == v@);
                    assert(verbs_for(*self).contains(v@));
                }
                v
            },
        };
        let r = self.to_string_with(attributes, values, verb);
        assert(verbs_for(*self).contains(verb@));
        r
    }
}

/// The numeral that the roman crate writes for `n`.
pub uninterp spec fn roman_of(n: int) -> Seq<char>;

/// Relies on `roman::to`: a numeral for 1 through 3999, `None` otherwise.
#[verifier::external_body]
fn roman_numeral(n: i32) -> (r: Option<String>)
    ensures
        r is None <==> (n <= 0 || n > 3999),
        r matches Some(s) ==> s@ == roman_of(n as int),
{
    roman::to(n)
}

/// When `n_hours` clues make a day, the numeral of the day that clue `index`
/// opens: `None` for a clue within a day, and for a day past 3999, which has
/// no numeral.
pub fn day_heading(index: usize, n_hours: usize) -> (r: Option<String>)
    requires
        n_hours > 0,
    ensures
        index % n_hours != 0 ==> r is None,
        index % n_hours == 0 && index / n_hours + 1 <= 3999 ==> (r matches Some(s) && s@
            == roman_of(index / n_hours + 1)),
        index / n_hours + 1 > 3999 ==> r is None,
{
    if index % n_hours != 0 {
        return None;
    }
    let day = index / n_hours;
    if day >= 3999 {
        return None;
    }
    roman_numeral((day + 1) as i32)
}

} // verus!
