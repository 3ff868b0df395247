use crate::json::{
    array_view, bool_of, chars_eq, chars_eq_str, chars_lt, int_of, lookup, parse_array,
    parse_object, seq_lt, type_named_by, without_quotes, JsonArray, JsonData, JsonError,
    JsonObject, JsonType, Outcome,
};
use crate::text::chars_of;
use vstd::prelude::*;

verus! {

/// How a value must compare with a constraint's value: below it, equal to it, or above it.
#[derive(Debug, Clone, Copy, PartialEq, Eq, Structural, Hash)]
pub enum Order {
    Less,
    Equal,
    Greater,
}

/// Why a document does not meet a template.
#[derive(Debug, PartialEq, Eq, Hash)]
pub enum JsonValidationError {
    IsNull,
    ValueDoesNotMeetConstraint(JsonData, JsonData, Order),
    MissingProperty(String),
    IncorrectType(String, JsonType, JsonType),
    ValueAllReadyExists(String),
}

/// A rule on a property's value.
#[derive(Debug, PartialEq, Eq, Hash, Clone)]
pub enum JsonConstraint {
    Nullable,
    ValueConstraint(JsonData, Order),
    Unique,
    Any,
}

/// Two rules are the same rule.
pub open spec fn same_constraint(a: JsonConstraint, b: JsonConstraint) -> bool {
    match a {
        JsonConstraint::Nullable => b is Nullable,
        JsonConstraint::Unique => b is Unique,
        JsonConstraint::Any => b is Any,
        JsonConstraint::ValueConstraint(d, o) => b matches JsonConstraint::ValueConstraint(d2, o2)
            && d@ == d2@ && o == o2,
    }
}

/// Whether the list holds the rule.
pub open spec fn has_constraint(l: Seq<JsonConstraint>, c: JsonConstraint) -> bool {
    exists|i: int| 0 <= i < l.len() && same_constraint(#[trigger] l[i], c)
}

/// No rule is held twice.
pub open spec fn constraints_distinct(l: Seq<JsonConstraint>) -> bool {
    forall|i: int, j: int| 0 <= i < j < l.len() ==> !same_constraint(#[trigger] l[i], #[trigger] l[j])
}

/// Whether a value may stand under a property's rules for its type: it has the property's
/// type, or it is null where null is allowed, or any value is allowed.
pub open spec fn admits_type(p: JsonValidationProperty, v: (Seq<char>, JsonType)) -> bool {
    v.1 == p.data_type || (has_constraint(p.constraints@, JsonConstraint::Nullable) && v.1
        == JsonType::Null) || has_constraint(p.constraints@, JsonConstraint::Any)
}

/// The order in which the types of values compare.
pub open spec fn type_rank(t: JsonType) -> int {
    match t {
        JsonType::String => 0,
        JsonType::Integer => 1,
        JsonType::Boolean => 2,
        JsonType::Float => 3,
        JsonType::Array => 4,
        JsonType::Object => 5,
        JsonType::Null => 6,
    }
}

/// One value comes before another: by its text, then by its type.
pub open spec fn item_lt(a: (Seq<char>, JsonType), b: (Seq<char>, JsonType)) -> bool {
    seq_lt(a.0, b.0) || (a.0 == b.0 && type_rank(a.1) < type_rank(b.1))
}

/// Lexicographic order of lists of values.
pub open spec fn items_lt(a: Seq<(Seq<char>, JsonType)>, b: Seq<(Seq<char>, JsonType)>) -> bool
    decreases a.len(),
{
    if a.len() == 0 {
        b.len() > 0
    } else if b.len() == 0 {
        false
    } else if a[0] == b[0] {
        items_lt(a.drop_first(), b.drop_first())
    } else {
        item_lt(a[0], b[0])
    }
}

/// Whether `a` stands in the order `o` to `b`, for an order `lt`.
pub open spec fn in_order<T>(lt: spec_fn(T, T) -> bool, a: T, b: T, o: Order) -> bool {
    match o {
        Order::Less => lt(a, b),
        Order::Equal => a == b,
        Order::Greater => lt(b, a),
    }
}

/// Whether a value meets a constraint's value in the order `o`, compared as the type of the
/// value: strings by their characters, integers by value, booleans and objects for
/// equality whatever the order, arrays by their members, null against null; arrays and
/// objects only against values of their own type. `None` where
/// the comparison panics (a value that does not read as the type) and for floating-point
/// values, which are compared outside the library.
pub open spec fn values_meet(v1: (Seq<char>, JsonType), v2: (Seq<char>, JsonType), o: Order) -> Option<
    bool,
> {
    match v1.1 {
        JsonType::String => Some(
            in_order(|a: Seq<char>, b: Seq<char>| seq_lt(a, b), without_quotes(v1.0), without_quotes(v2.0), o),
        ),
        JsonType::Integer => match (int_of(v1), int_of(v2)) {
            (Ok(a), Ok(b)) => Some(in_order(|x: int, y: int| x < y, a, b, o)),
            _ => None,
        },
        JsonType::Boolean => match (bool_of(v1), bool_of(v2)) {
            (Ok(a), Ok(b)) => Some(a == b),
            _ => None,
        },
        JsonType::Float => None,
        JsonType::Array => if v2.1 != JsonType::Array {
            None
        } else {
            match (parse_array(v1.0), parse_array(v2.0)) {
            (Outcome::Done(a), Outcome::Done(b)) => Some(
                in_order(
                    |x: Seq<(Seq<char>, JsonType)>, y: Seq<(Seq<char>, JsonType)>| items_lt(x, y),
                    a,
                    b,
                    o,
                ),
            ),
            _ => None,
            }
        },
        JsonType::Object => if v2.1 != JsonType::Object {
            None
        } else {
            match (parse_object(v1.0), parse_object(v2.0)) {
                (Outcome::Done(a), Outcome::Done(b)) => Some(a == b),
                _ => None,
            }
        },
        JsonType::Null => Some(v2.1 == JsonType::Null),
    }
}

/// The first value rule from position `i` on that the value does not meet (`Some(None)`
/// when it meets them all, `None` where a comparison panics).
pub open spec fn first_unmet(v: (Seq<char>, JsonType), cs: Seq<JsonConstraint>, i: int) -> Option<
    Option<int>,
>
    decreases cs.len() - i,
{
    if i < 0 || i >= cs.len() {
        Some(None)
    } else {
        match cs[i] {
            JsonConstraint::ValueConstraint(cv, o) => match values_meet(v, cv@, o) {
                None => None,
                Some(false) => Some(Some(i)),
                Some(true) => first_unmet(v, cs, i + 1),
            },
            _ => first_unmet(v, cs, i + 1),
        }
    }
}

/// The outcome of checking a document against properties.
pub enum Verdict {
    Valid,
    /// The property at this position is missing.
    Missing(int),
    /// The value of the property at this position has a type it does not admit.
    WrongType(int),
    /// The value of the property at the first position does not meet its rule at the second.
    Unmet(int, int),
}

/// Checking the properties from position `i` on, in order; `None` where a comparison panics.
pub open spec fn verdict_from(
    props: Seq<JsonValidationProperty>,
    json: Seq<(Seq<char>, (Seq<char>, JsonType))>,
    i: int,
) -> Option<Verdict>
    decreases props.len() - i,
{
    if i < 0 || i >= props.len() {
        Some(Verdict::Valid)
    } else {
        match lookup(json, props[i].name@) {
            None => Some(Verdict::Missing(i)),
            Some(v) => if admits_type(props[i], v) {
                match first_unmet(v, props[i].constraints@, 0) {
                    None => None,
                    Some(Some(j)) => Some(Verdict::Unmet(i, j)),
                    Some(None) => verdict_from(props, json, i + 1),
                }
            } else {
                Some(Verdict::WrongType(i))
            },
        }
    }
}

/// A property of a template: a name, a type and rules.
#[derive(PartialEq, Debug, Clone)]
pub struct JsonValidationProperty {
    pub name: String,
    pub data_type: JsonType,
    pub constraints: Vec<JsonConstraint>,
}

/// Whether two rules are the same rule.
fn same_constraint_exec(a: &JsonConstraint, b: &JsonConstraint) -> (r: bool)
    ensures
        r == same_constraint(*a, *b),
{
    match (a, b) {
        (JsonConstraint::Nullable, JsonConstraint::Nullable) => true,
        (JsonConstraint::Unique, JsonConstraint::Unique) => true,
        (JsonConstraint::Any, JsonConstraint::Any) => true,
        (JsonConstraint::ValueConstraint(d1, o1), JsonConstraint::ValueConstraint(d2, o2)) => {
            let t1 = chars_of(d1.get_data().as_str());
            let t2 = chars_of(d2.get_data().as_str());
            chars_eq(t1.as_slice(), t2.as_slice()) && d1.get_type() == d2.get_type() && *o1 == *o2
        },
        _ => false,
    }
}

/// Whether the rules hold `c`.
fn holds_constraint(l: &Vec<JsonConstraint>, c: &JsonConstraint) -> (r: bool)
    ensures
        r == has_constraint(l@, *c),
{
    let mut i: usize = 0;
    while i < l.len()
        invariant
            i <= l.len(),
            forall|k: int| 0 <= k < i ==> !same_constraint(#[trigger] l@[k], *c),
        decreases l.len() - i,
    {
        if same_constraint_exec(&l[i], c) {
            return true;
        }
        i += 1;
    }
    false
}

impl JsonValidationProperty {
    /// No rule is held twice.
    pub open spec fn wf(&self) -> bool {
        constraints_distinct(self.constraints@)
    }

    /// A property with a name and a type, and no rule.
    pub fn new(name: String, data_type: JsonType) -> (r: Self)
        ensures
            r.name@ == name@,
            r.data_type == data_type,
            r.constraints@ == Seq::<JsonConstraint>::empty(),
            r.wf(),
    {
        Self { name, data_type, constraints: Vec::new() }
    }

    /// Adds a rule unless it is held already. A value rule must be of the property's type,
    /// and only equality can be asked of booleans and objects.
    pub fn constraint(&mut self, constraint: JsonConstraint) -> (r: &mut Self)
        requires
            old(self).wf(),
            constraint matches JsonConstraint::ValueConstraint(d, o) ==> d@.1 == old(
                self,
            ).data_type && ((old(self).data_type == JsonType::Boolean || old(self).data_type
                == JsonType::Object) ==> o == Order::Equal),
        ensures
            r.name@ == old(self).name@,
            r.data_type == old(self).data_type,
            r.constraints@ == if has_constraint(old(self).constraints@, constraint) {
                old(self).constraints@
            } else {
                old(self).constraints@.push(constraint)
            },
            r.wf(),
            *final(self) == *final(r),
    {
        if !holds_constraint(&self.constraints, &constraint) {
            let ghost before = self.constraints@;
            self.constraints.push(constraint);
            assert forall|i: int, j: int| 0 <= i < j < self.constraints@.len() implies !same_constraint(
                #[trigger] self.constraints@[i],
                #[trigger] self.constraints@[j],
            ) by {
                if j == before.len() {
                    assert(self.constraints@[i] == before[i]);
                }
            }
        }
        self
    }
}

/// A template: properties a document must have, in the order they are checked.
#[derive(Debug, PartialEq, Clone)]
pub struct ValidationJson {
    props: Vec<JsonValidationProperty>,
}

impl View for ValidationJson {
    type V = Seq<JsonValidationProperty>;

    closed spec fn view(&self) -> Seq<JsonValidationProperty> {
        self.props@
    }
}

/// Whether a property is to be unique among documents.
pub open spec fn is_unique_prop(p: JsonValidationProperty) -> bool {
    has_constraint(p.constraints@, JsonConstraint::Unique)
}

impl ValidationJson {
    /// A template with no property.
    pub fn new() -> (r: ValidationJson)
        ensures
            r@ == Seq::<JsonValidationProperty>::empty(),
    {
        ValidationJson { props: Vec::new() }
    }

    /// Adds a property, checked after those before it.
    pub fn add(&mut self, prop: JsonValidationProperty) -> (r: &mut Self)
        ensures
            r@ == old(self)@.push(prop),
            *final(self) == *final(r),
    {
        self.props.push(prop);
        self
    }

    /// The properties, in order.
    pub fn get_all_props(&self) -> (r: &Vec<JsonValidationProperty>)
        ensures
            r@ == self@,
    {
        &self.props
    }

    /// The properties that are to be unique, in order.
    pub fn get_all_unique_props(&self) -> (r: Vec<&JsonValidationProperty>)
        ensures
            r@.map_values(|p: &JsonValidationProperty| *p) == self@.filter(
                |p: JsonValidationProperty| is_unique_prop(p),
            ),
    {
        let mut r: Vec<&JsonValidationProperty> = Vec::new();
        let mut i: usize = 0;
        let unique = JsonConstraint::Unique;
        while i < self.props.len()
            invariant
                i <= self.props.len(),
                unique == JsonConstraint::Unique,
                r@.map_values(|p: &JsonValidationProperty| *p) == self@.take(i as int).filter(
                    |p: JsonValidationProperty| is_unique_prop(p),
                ),
            decreases self.props.len() - i,
        {
            let p = &self.props[i];
            assert(self@.take(i + 1).drop_last() =~= self@.take(i as int));
            let ghost before = r@;
            if holds_constraint(&p.constraints, &unique) {
                r.push(p);
                assert(r@.map_values(|p: &JsonValidationProperty| *p) =~= before.map_values(
                    |p: &JsonValidationProperty| *p,
                ).push(*p));
            }
            proof {
                self@.take(i as int).lemma_filter_push(
                    self@[i as int],
                    |p: JsonValidationProperty| is_unique_prop(p),
                );
            }
            assert(self@.take(i + 1) =~= self@.take(i as int).push(self@[i as int]));
            i += 1;
        }
        assert(self@.take(self.props.len() as int) =~= self@);
        r
    }
}


/// Whether two lists of values are equal.
fn items_equal_at(a: &JsonData, b: &JsonData) -> (r: bool)
    ensures
        r == (a@ == b@),
{
    let t1 = chars_of(a.get_data().as_str());
    let t2 = chars_of(b.get_data().as_str());
    chars_eq(t1.as_slice(), t2.as_slice()) && a.get_type() == b.get_type()
}

/// The rank of a type in the order of values.
fn type_rank_of(t: JsonType) -> (r: u8)
    ensures
        r as int == type_rank(t),
{
    match t {
        JsonType::String => 0,
        JsonType::Integer => 1,
        JsonType::Boolean => 2,
        JsonType::Float => 3,
        JsonType::Array => 4,
        JsonType::Object => 5,
        JsonType::Null => 6,
    }
}

/// Whether the list `a` comes before the list `b`.
fn items_before(a: &JsonArray, b: &JsonArray) -> (r: bool)
    ensures
        r == items_lt(array_view(a@), array_view(b@)),
{
    let ghost va = array_view(a@);
    let ghost vb = array_view(b@);
    let mut i: usize = 0;
    assert(va.skip(0) =~= va);
    assert(vb.skip(0) =~= vb);
    while i < a.len() && i < b.len()
        invariant
            i <= a.len(),
            i <= b.len(),
            va == array_view(a@),
            vb == array_view(b@),
            items_lt(va, vb) == items_lt(va.skip(i as int), vb.skip(i as int)),
        decreases a.len() - i,
    {
        assert(va.skip(i as int)[0] == a@[i as int]@);
        assert(vb.skip(i as int)[0] == b@[i as int]@);
        assert(va.skip(i as int).drop_first() =~= va.skip(i + 1));
        assert(vb.skip(i as int).drop_first() =~= vb.skip(i + 1));
        if !items_equal_at(&a[i], &b[i]) {
            let t1 = chars_of(a[i].get_data().as_str());
            let t2 = chars_of(b[i].get_data().as_str());
            if chars_lt(t1.as_slice(), t2.as_slice()) {
                return true;
            }
            if !chars_eq(t1.as_slice(), t2.as_slice()) {
                return false;
            }
            return type_rank_of(a[i].get_type()) < type_rank_of(b[i].get_type());
        }
        i += 1;
    }
    i < b.len()
}

impl ValidationJson {
    /// Whether `value1` meets `value2` in the order `order`.
    fn comp_values(value1: &JsonData, value2: &JsonData, order: Order) -> (r: bool)
        requires
            values_meet(value1@, value2@, order) is Some,
        ensures
            r == values_meet(value1@, value2@, order).unwrap(),
    {
        match value1.get_type() {
            JsonType::String => {
                let a = chars_of(value1.as_string().as_str());
                let b = chars_of(value2.as_string().as_str());
                match order {
                    Order::Less => chars_lt(a.as_slice(), b.as_slice()),
                    Order::Equal => chars_eq(a.as_slice(), b.as_slice()),
                    Order::Greater => chars_lt(b.as_slice(), a.as_slice()),
                }
            },
            JsonType::Integer => match (value1.as_int(), value2.as_int()) {
                (Ok(x), Ok(y)) => match order {
                    Order::Less => x < y,
                    Order::Equal => x == y,
                    Order::Greater => x > y,
                },
                _ => {
                    assert(false);
                    false
                },
            },
            JsonType::Boolean => match (value1.as_bool(), value2.as_bool()) {
                (Ok(x), Ok(y)) => x == y,
                _ => {
                    assert(false);
                    false
                },
            },
            JsonType::Float => {
                assert(false);
                false
            },
            JsonType::Array => match (value1.as_array(), value2.as_array()) {
                (Ok(x), Ok(y)) => match order {
                    Order::Less => items_before(&x, &y),
                    Order::Equal => {
                        let ghost vx = array_view(x@);
                        let ghost vy = array_view(y@);
                        if x.len() != y.len() {
                            assert(vx.len() != vy.len());
                            false
                        } else {
                            let mut k: usize = 0;
                            let mut same = true;
                            while k < x.len()
                                invariant
                                    k <= x.len(),
                                    x.len() == y.len(),
                                    vx == array_view(x@),
                                    vy == array_view(y@),
                                    same == (forall|m: int| 0 <= m < k ==> vx[m] == vy[m]),
                                decreases x.len() - k,
                            {
                                assert(vx[k as int] == x@[k as int]@);
                                assert(vy[k as int] == y@[k as int]@);
                                if !items_equal_at(&x[k], &y[k]) {
                                    same = false;
                                }
                                k += 1;
                            }
                            if same {
                                assert(vx =~= vy);
                            }
                            same
                        }
                    },
                    Order::Greater => items_before(&y, &x),
                },
                _ => {
                    assert(false);
                    false
                },
            },
            JsonType::Object => match (value1.as_object(), value2.as_object()) {
                (Ok(x), Ok(y)) => x.same_as(&y),
                _ => {
                    assert(false);
                    false
                },
            },
            JsonType::Null => value2.is_null(),
        }
    }

    /// Checks a document against the template, property by property in order: each must be
    /// there, of its type (or null where allowed, or anything where allowed), and meet its
    /// value rules in order; the first failure is the error.
    pub fn validate(&self, json: &JsonObject) -> (r: Result<(), JsonValidationError>)
        requires
            json.wf(),
            verdict_from(self@, json@, 0) is Some,
        ensures
            match verdict_from(self@, json@, 0).unwrap() {
                Verdict::Valid => r is Ok,
                Verdict::Missing(i) => r matches Err(JsonValidationError::MissingProperty(n)) && n@
                    == self@[i].name@,
                Verdict::WrongType(i) => r matches Err(
                    JsonValidationError::IncorrectType(n, t, expected),
                ) && n@ == self@[i].name@ && t == lookup(json@, self@[i].name@).unwrap().1
                    && expected == self@[i].data_type,
                Verdict::Unmet(i, j) => r matches Err(
                    JsonValidationError::ValueDoesNotMeetConstraint(v, c, o),
                ) && v@ == lookup(json@, self@[i].name@).unwrap() && (self@[i].constraints@[j] matches JsonConstraint::ValueConstraint(cv, co) && c@ == cv@ && o == co),
            },
    {
        let nullable = JsonConstraint::Nullable;
        let any = JsonConstraint::Any;
        let mut i: usize = 0;
        while i < self.props.len()
            invariant
                i <= self.props.len(),
                json.wf(),
                verdict_from(self@, json@, 0) == verdict_from(self@, json@, i as int),
                verdict_from(self@, json@, 0) is Some,
                nullable == JsonConstraint::Nullable,
                any == JsonConstraint::Any,
            decreases self.props.len() - i,
        {
            let prop = &self.props[i];
            assert(*prop == self@[i as int]);
            match json.get(&prop.name) {
                None => {
                    return Err(JsonValidationError::MissingProperty(prop.name.clone()));
                },
                Some(value) => {
                    if value.get_type() == prop.data_type || (holds_constraint(
                        &prop.constraints,
                        &nullable,
                    ) && value.is_null()) || holds_constraint(&prop.constraints, &any) {
                        let ghost cs = prop.constraints@;
                        let mut j: usize = 0;
                        while j < prop.constraints.len()
                            invariant
                                j <= prop.constraints.len(),
                                cs == prop.constraints@,
                                first_unmet(value@, cs, 0) == first_unmet(value@, cs, j as int),
                                first_unmet(value@, cs, 0) is Some,
                                i < self@.len(),
                                *prop == self@[i as int],
                                lookup(json@, prop.name@) == Some(value@),
                                admits_type(*prop, value@),
                                verdict_from(self@, json@, 0) == verdict_from(self@, json@, i as int),
                            decreases prop.constraints.len() - j,
                        {
                            match &prop.constraints[j] {
                                JsonConstraint::ValueConstraint(cv, o) => {
                                    if !Self::comp_values(value, cv, *o) {
                                        return Err(
                                            JsonValidationError::ValueDoesNotMeetConstraint(
                                                value.copy(),
                                                cv.copy(),
                                                *o,
                                            ),
                                        );
                                    }
                                },
                                _ => {},
                            }
                            j += 1;
                        }
                    } else {
                        return Err(
                            JsonValidationError::IncorrectType(
                                prop.name.clone(),
                                value.get_type(),
                                prop.data_type,
                            ),
                        );
                    }
                },
            }
            i += 1;
        }
        Ok(())
    }
}


/// A rule as values.
pub enum ConstraintView {
    Nullable,
    Value((Seq<char>, JsonType), Order),
    Unique,
    Any,
}

/// The values of a rule.
pub open spec fn constraint_view(c: JsonConstraint) -> ConstraintView {
    match c {
        JsonConstraint::Nullable => ConstraintView::Nullable,
        JsonConstraint::ValueConstraint(d, o) => ConstraintView::Value(d@, o),
        JsonConstraint::Unique => ConstraintView::Unique,
        JsonConstraint::Any => ConstraintView::Any,
    }
}

/// The values of a property: its name, its type and its rules.
pub open spec fn property_view(p: JsonValidationProperty) -> (Seq<char>, JsonType, Seq<ConstraintView>) {
    (p.name@, p.data_type, p.constraints@.map_values(|c: JsonConstraint| constraint_view(c)))
}

/// `l` with `x` added at the end unless it is there already.
pub open spec fn with_view(l: Seq<ConstraintView>, x: ConstraintView) -> Seq<ConstraintView> {
    if l.contains(x) {
        l
    } else {
        l.push(x)
    }
}

/// What reading a value as an object gives in a template: `None` where it panics.
pub open spec fn template_object(d: (Seq<char>, JsonType)) -> Option<
    Result<Seq<(Seq<char>, (Seq<char>, JsonType))>, JsonError>,
> {
    if d.1 != JsonType::Object {
        Some(Err(JsonError::ParseError))
    } else {
        match parse_object(d.0) {
            Outcome::Done(e) => Some(Ok(e)),
            Outcome::Failed => Some(Err(JsonError::ParseError)),
            Outcome::Panics => None,
        }
    }
}

/// The order a text names: `<`, `=` or `>`.
pub open spec fn order_named(s: Seq<char>) -> Option<Order> {
    if s == seq!['<'] {
        Some(Order::Less)
    } else if s == seq!['='] {
        Some(Order::Equal)
    } else if s == seq!['>'] {
        Some(Order::Greater)
    } else {
        None
    }
}

/// What reading a value rule of a property of type `t` gives: the rule, an error, or `None`
/// where reading panics (a member missing, or a rule the property cannot take).
pub open spec fn value_rule_from(t: JsonType, v: (Seq<char>, JsonType)) -> Option<
    Result<ConstraintView, JsonError>,
> {
    match template_object(v) {
        None => None,
        Some(Err(x)) => Some(Err(x)),
        Some(Ok(ve)) => match lookup(ve, "value"@) {
            None => None,
            Some(vv) => match template_object(vv) {
                None => None,
                Some(Err(x)) => Some(Err(x)),
                Some(Ok(ie)) => match lookup(ie, "type"@) {
                    None => None,
                    Some(tv) => match type_named_by(tv) {
                        Err(x) => Some(Err(x)),
                        Ok(dt) => match lookup(ie, "data"@) {
                            None => None,
                            Some(dv) => match lookup(ve, "order"@) {
                                None => None,
                                Some(ov) => match order_named(without_quotes(ov.0)) {
                                    None => Some(Err(JsonError::ParseError)),
                                    Some(o) => if dt != t || ((t == JsonType::Boolean || t
                                        == JsonType::Object) && o != Order::Equal) {
                                        None
                                    } else {
                                        Some(Ok(ConstraintView::Value((without_quotes(dv.0), dt), o)))
                                    },
                                },
                            },
                        },
                    },
                },
            },
        },
    }
}

/// One entry of a `constraints` object read into the rules `cs`: `nullable`, `any`,
/// `unique` and `value constraint` add their rule; other keys are passed over.
pub open spec fn constraint_step(
    t: JsonType,
    cs: Seq<ConstraintView>,
    entry: (Seq<char>, (Seq<char>, JsonType)),
) -> Option<Result<Seq<ConstraintView>, JsonError>> {
    let k = entry.0;
    if k == "nullable"@ {
        Some(Ok(with_view(cs, ConstraintView::Nullable)))
    } else if k == "any"@ {
        Some(Ok(with_view(cs, ConstraintView::Any)))
    } else if k == "unique"@ {
        Some(Ok(with_view(cs, ConstraintView::Unique)))
    } else if k == "value constraint"@ {
        match value_rule_from(t, entry.1) {
            None => None,
            Some(Err(x)) => Some(Err(x)),
            Some(Ok(c)) => Some(Ok(with_view(cs, c))),
        }
    } else {
        Some(Ok(cs))
    }
}

/// The rules read from the entries of a `constraints` object, in key order, added to `l`.
pub open spec fn constraints_from(
    t: JsonType,
    l: Seq<ConstraintView>,
    e: Seq<(Seq<char>, (Seq<char>, JsonType))>,
) -> Option<Result<Seq<ConstraintView>, JsonError>>
    decreases e.len(),
{
    if e.len() == 0 {
        Some(Ok(l))
    } else {
        match constraints_from(t, l, e.drop_last()) {
            Some(Ok(cs)) => constraint_step(t, cs, e.last()),
            other => other,
        }
    }
}

/// One entry of a template document read as a property: its key is the name; the value
/// holds a `type` name and a `constraints` object.
pub open spec fn prop_of(entry: (Seq<char>, (Seq<char>, JsonType))) -> Option<
    Result<(Seq<char>, JsonType, Seq<ConstraintView>), JsonError>,
> {
    match template_object(entry.1) {
        None => None,
        Some(Err(x)) => Some(Err(x)),
        Some(Ok(pe)) => match lookup(pe, "type"@) {
            None => None,
            Some(tv) => match type_named_by(tv) {
                Err(x) => Some(Err(x)),
                Ok(t) => match lookup(pe, "constraints"@) {
                    None => None,
                    Some(cv) => match template_object(cv) {
                        None => None,
                        Some(Err(x)) => Some(Err(x)),
                        Some(Ok(ce)) => match constraints_from(t, Seq::empty(), ce) {
                            None => None,
                            Some(Err(x)) => Some(Err(x)),
                            Some(Ok(cs)) => Some(Ok((entry.0, t, cs))),
                        },
                    },
                },
            },
        },
    }
}

/// One entry of a template document read as a property and added to `ps`.
pub open spec fn prop_step(
    ps: Seq<(Seq<char>, JsonType, Seq<ConstraintView>)>,
    entry: (Seq<char>, (Seq<char>, JsonType)),
) -> Option<Result<Seq<(Seq<char>, JsonType, Seq<ConstraintView>)>, JsonError>> {
    match prop_of(entry) {
        None => None,
        Some(Err(x)) => Some(Err(x)),
        Some(Ok(p)) => Some(Ok(ps.push(p))),
    }
}

/// The properties read from the entries of a template document, in key order.
pub open spec fn props_from(e: Seq<(Seq<char>, (Seq<char>, JsonType))>) -> Option<
    Result<Seq<(Seq<char>, JsonType, Seq<ConstraintView>)>, JsonError>,
>
    decreases e.len(),
{
    if e.len() == 0 {
        Some(Ok(Seq::empty()))
    } else {
        match props_from(e.drop_last()) {
            Some(Ok(ps)) => prop_step(ps, e.last()),
            other => other,
        }
    }
}

proof fn lemma_constraints_from_prefix(
    t: JsonType,
    l: Seq<ConstraintView>,
    e: Seq<(Seq<char>, (Seq<char>, JsonType))>,
    i: int,
)
    requires
        0 <= i <= e.len(),
        !(constraints_from(t, l, e.take(i)) matches Some(Ok(_))),
    ensures
        constraints_from(t, l, e) == constraints_from(t, l, e.take(i)),
    decreases e.len() - i,
{
    if i < e.len() {
        assert(e.take(i + 1).drop_last() =~= e.take(i));
        lemma_constraints_from_prefix(t, l, e, i + 1);
    } else {
        assert(e.take(i) =~= e);
    }
}

proof fn lemma_props_from_prefix(e: Seq<(Seq<char>, (Seq<char>, JsonType))>, i: int)
    requires
        0 <= i <= e.len(),
        !(props_from(e.take(i)) matches Some(Ok(_))),
    ensures
        props_from(e) == props_from(e.take(i)),
    decreases e.len() - i,
{
    if i < e.len() {
        assert(e.take(i + 1).drop_last() =~= e.take(i));
        lemma_props_from_prefix(e, i + 1);
    } else {
        assert(e.take(i) =~= e);
    }
}

/// Reads a value as an object.
fn read_template_object(d: &JsonData) -> (r: Result<JsonObject, JsonError>)
    requires
        template_object(d@) is Some,
    ensures
        match template_object(d@).unwrap() {
            Ok(e) => r matches Ok(o) && o@ == e && o.wf(),
            Err(x) => r == Err::<JsonObject, JsonError>(x),
        },
{
    match d.as_object() {
        Ok(o) => Ok(o),
        Err(_) => Err(JsonError::ParseError),
    }
}

/// The member of an object under a key that must be there.
fn member<'a>(o: &'a JsonObject, key: &str) -> (r: &'a JsonData)
    requires
        o.wf(),
        lookup(o@, key@) is Some,
    ensures
        r@ == lookup(o@, key@).unwrap(),
{
    let k = key.to_owned();
    match o.get(&k) {
        Some(d) => d,
        None => {
            assert(false);
            o.get(&k).unwrap()
        },
    }
}

/// Reads a value rule of a property of type `t`.
fn read_value_rule(t: JsonType, v: &JsonData) -> (r: Result<JsonConstraint, JsonError>)
    requires
        value_rule_from(t, v@) is Some,
    ensures
        match value_rule_from(t, v@).unwrap() {
            Ok(c) => r matches Ok(rc) && constraint_view(rc) == c,
            Err(x) => r == Err::<JsonConstraint, JsonError>(x),
        },
{
    let value = read_template_object(v)?;
    let inner_value = read_template_object(member(&value, "value"))?;
    let data_type = member(&inner_value, "type").as_type()?;
    let data = JsonData::new(member(&inner_value, "data").as_string(), data_type);
    let order = chars_of(member(&value, "order").as_string().as_str());
    proof {
        reveal_strlit("<");
        reveal_strlit(">");
        reveal_strlit("=");
        assert("<"@ =~= seq!['<']);
        assert(">"@ =~= seq!['>']);
        assert("="@ =~= seq!['=']);
    }
    let order = if chars_eq_str(order.as_slice(), "<") {
        Order::Less
    } else if chars_eq_str(order.as_slice(), "=") {
        Order::Equal
    } else if chars_eq_str(order.as_slice(), ">") {
        Order::Greater
    } else {
        return Err(JsonError::ParseError);
    };
    Ok(JsonConstraint::ValueConstraint(data, order))
}

/// The values of the rules of a property.
pub open spec fn rules_view(l: Seq<JsonConstraint>) -> Seq<ConstraintView> {
    l.map_values(|c: JsonConstraint| constraint_view(c))
}

impl JsonValidationProperty {
    /// Adds the rules read from the entries of a `constraints` object, in key order.
    fn add_constraints(&mut self, constraints: &JsonObject) -> (r: Result<(), JsonError>)
        requires
            old(self).wf(),
            constraints_from(old(self).data_type, rules_view(old(self).constraints@), constraints@)
                is Some,
        ensures
            final(self).wf(),
            final(self).data_type == old(self).data_type,
            final(self).name@ == old(self).name@,
            match constraints_from(
                old(self).data_type,
                rules_view(old(self).constraints@),
                constraints@,
            ).unwrap() {
                Ok(cs) => r is Ok && rules_view(final(self).constraints@) == cs,
                Err(x) => r == Err::<(), JsonError>(x),
            },
    {
        let ghost t = self.data_type;
        let ghost l0 = rules_view(self.constraints@);
        let centries = constraints.entries();
        let ghost ce = constraints@;
        let mut j: usize = 0;
        assert(ce.take(0) =~= Seq::<(Seq<char>, (Seq<char>, JsonType))>::empty());
        proof {
            reveal_strlit("nullable");
            reveal_strlit("any");
            reveal_strlit("unique");
            reveal_strlit("value constraint");
        }
        while j < centries.len()
            invariant
                j <= centries.len(),
                centries@.map_values(|x: (String, JsonData)| (x.0@, x.1@)) == ce,
                ce == constraints@,
                constraints_from(t, l0, ce) is Some,
                constraints_from(t, l0, ce.take(j as int)) == Some(
                    Ok::<Seq<ConstraintView>, JsonError>(rules_view(self.constraints@)),
                ),
                self.wf(),
                self.data_type == t,
                t == old(self).data_type,
                l0 == rules_view(old(self).constraints@),
                self.name@ == old(self).name@,
            decreases centries.len() - j,
        {
            assert(ce.take(j + 1).drop_last() =~= ce.take(j as int));
            assert(ce.take(j + 1).last() == ce[j as int]);
            assert(ce[j as int] == (centries@[j as int].0@, centries@[j as int].1@));
            let ghost cs = self.constraints@;
            assert(constraints_from(t, l0, ce.take(j + 1)) == constraint_step(
                t,
                rules_view(cs),
                ce[j as int],
            ));
            let key = chars_of(centries[j].0.as_str());
            let c = if chars_eq_str(key.as_slice(), "nullable") {
                Some(JsonConstraint::Nullable)
            } else if chars_eq_str(key.as_slice(), "any") {
                Some(JsonConstraint::Any)
            } else if chars_eq_str(key.as_slice(), "unique") {
                Some(JsonConstraint::Unique)
            } else if chars_eq_str(key.as_slice(), "value constraint") {
                proof {
                    if !(constraint_step(t, rules_view(cs), ce[j as int]) matches Some(Ok(_))) {
                        lemma_constraints_from_prefix(t, l0, ce, j + 1);
                    }
                }
                match read_value_rule(self.data_type, &centries[j].1) {
                    Ok(c) => Some(c),
                    Err(x) => {
                        proof {
                            assert(value_rule_from(t, ce[j as int].1) == Some(
                                Err::<ConstraintView, JsonError>(x),
                            ));
                            assert(constraint_step(t, rules_view(cs), ce[j as int]) == Some(
                                Err::<Seq<ConstraintView>, JsonError>(x),
                            ));
                            lemma_constraints_from_prefix(t, l0, ce, j + 1);
                        }
                        return Err(x);
                    },
                }
            } else {
                None
            };
            match c {
                Some(c) => {
                    proof {
                        lemma_has_constraint_view(cs, c);
                    }
                    self.constraint(c);
                    proof {
                        if !has_constraint(cs, c) {
                            assert(rules_view(self.constraints@) =~= rules_view(cs).push(
                                constraint_view(c),
                            ));
                        }
                    }
                },
                None => {},
            }
            j += 1;
        }
        assert(ce.take(centries.len() as int) =~= ce);
        Ok(())
    }
}

/// Reads one property of a template document.
fn read_property(key: &String, d: &JsonData) -> (r: Result<JsonValidationProperty, JsonError>)
    requires
        prop_of((key@, d@)) is Some,
    ensures
        match prop_of((key@, d@)).unwrap() {
            Ok(pv) => r matches Ok(p) && property_view(p) == pv && p.wf(),
            Err(x) => r == Err::<JsonValidationProperty, JsonError>(x),
        },
{
    let prop_as_json = read_template_object(d)?;
    let data_type = member(&prop_as_json, "type").as_type()?;
    let mut prop = JsonValidationProperty::new(key.clone(), data_type);
    let constraints = read_template_object(member(&prop_as_json, "constraints"))?;
    assert(rules_view(prop.constraints@) =~= Seq::<ConstraintView>::empty());
    prop.add_constraints(&constraints)?;
    Ok(prop)
}

impl ValidationJson {
    /// Reads a template from its JSON document (`TryFrom<JsonObject>`): each key a property
    /// name mapped to an object with a `type` name and a `constraints` object, read in key
    /// order.
    pub fn from_json(value: JsonObject) -> (r: Result<ValidationJson, JsonError>)
        requires
            value.wf(),
            props_from(value@) is Some,
        ensures
            match props_from(value@).unwrap() {
                Ok(ps) => r matches Ok(v) && v@.map_values(|p: JsonValidationProperty| property_view(p))
                    == ps && forall|i: int| 0 <= i < v@.len() ==> (#[trigger] v@[i]).wf(),
                Err(x) => r == Err::<ValidationJson, JsonError>(x),
            },
    {
        let mut ret = Self::new();
        let entries = value.entries();
        let ghost e = value@;
        let mut i: usize = 0;
        assert(e.take(0) =~= Seq::<(Seq<char>, (Seq<char>, JsonType))>::empty());
        assert(ret@.map_values(|p: JsonValidationProperty| property_view(p)) =~= Seq::<
            (Seq<char>, JsonType, Seq<ConstraintView>),
        >::empty());
        while i < entries.len()
            invariant
                i <= entries.len(),
                entries@.map_values(|x: (String, JsonData)| (x.0@, x.1@)) == e,
                e == value@,
                props_from(e) is Some,
                props_from(e.take(i as int)) == Some(
                    Ok::<Seq<(Seq<char>, JsonType, Seq<ConstraintView>)>, JsonError>(
                        ret@.map_values(|p: JsonValidationProperty| property_view(p)),
                    ),
                ),
                forall|k: int| 0 <= k < ret@.len() ==> (#[trigger] ret@[k]).wf(),
            decreases entries.len() - i,
        {
            assert(e.take(i + 1).drop_last() =~= e.take(i as int));
            assert(e.take(i + 1).last() == e[i as int]);
            assert(e[i as int] == (entries@[i as int].0@, entries@[i as int].1@));
            let ghost before = ret@.map_values(|p: JsonValidationProperty| property_view(p));
            assert(props_from(e.take(i + 1)) == prop_step(before, e[i as int]));
            proof {
                if !(prop_step(before, e[i as int]) matches Some(Ok(_))) {
                    lemma_props_from_prefix(e, i + 1);
                }
            }
            let prop = match read_property(&entries[i].0, &entries[i].1) {
                Ok(p) => p,
                Err(x) => {
                    proof {
                        assert(prop_step(before, e[i as int]) == Some(
                            Err::<Seq<(Seq<char>, JsonType, Seq<ConstraintView>)>, JsonError>(x),
                        ));
                        lemma_props_from_prefix(e, i + 1);
                    }
                    return Err(x);
                },
            };
            let ghost pv = property_view(prop);
            ret.add(prop);
            assert(ret@.map_values(|p: JsonValidationProperty| property_view(p)) =~= before.push(pv));
            i += 1;
        }
        assert(e.take(entries.len() as int) =~= e);
        Ok(ret)
    }
}

/// A rule is held exactly when its values are among the values of the rules held.
proof fn lemma_has_constraint_view(l: Seq<JsonConstraint>, c: JsonConstraint)
    ensures
        has_constraint(l, c) == l.map_values(|x: JsonConstraint| constraint_view(x)).contains(
            constraint_view(c),
        ),
{
    let v = l.map_values(|x: JsonConstraint| constraint_view(x));
    if has_constraint(l, c) {
        let i = choose|i: int| 0 <= i < l.len() && same_constraint(#[trigger] l[i], c);
        assert(v[i] == constraint_view(c));
    }
    if v.contains(constraint_view(c)) {
        let i = choose|i: int| 0 <= i < v.len() && v[i] == constraint_view(c);
        assert(same_constraint(l[i], c));
    }
}


/// Integers meet a value rule by their values as numbers: a value is less than, equal to or
/// greater than the rule's value exactly when its number is, whatever their texts.
pub proof fn lemma_integers_compare_by_value(v1: (Seq<char>, JsonType), v2: (Seq<char>, JsonType))
    requires
        v1.1 == JsonType::Integer,
        int_of(v1) is Ok,
        int_of(v2) is Ok,
    ensures
        values_meet(v1, v2, Order::Less) == Some(int_of(v1)->Ok_0 < int_of(v2)->Ok_0),
        values_meet(v1, v2, Order::Equal) == Some(int_of(v1)->Ok_0 == int_of(v2)->Ok_0),
        values_meet(v1, v2, Order::Greater) == Some(int_of(v1)->Ok_0 > int_of(v2)->Ok_0),
{
}
} // verus!
