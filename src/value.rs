use vstd::prelude::*;

verus! {

/// A calendar date without a time zone.
#[derive(Clone, Copy, Debug, PartialEq, Eq, Structural)]
pub struct LocalDate {
    pub year: i32,
    pub month: u32,
    pub day: u32,
}

/// A time of day without a time zone.
#[derive(Clone, Copy, Debug, PartialEq, Eq, Structural)]
pub struct LocalTime {
    pub hour: u32,
    pub minute: u32,
    pub second: u32,
    pub nanosecond: u32,
}

/// A date and a time of day without a time zone.
#[derive(Clone, Copy, Debug, PartialEq, Eq, Structural)]
pub struct LocalDateTime {
    pub date: LocalDate,
    pub time: LocalTime,
}

/// A date and a time of day in the local time of a fixed offset from UTC.
#[derive(Clone, Copy, Debug, PartialEq, Eq, Structural)]
pub struct OffsetDateTime {
    pub date: LocalDate,
    pub time: LocalTime,
    /// Local time minus UTC, in seconds.
    pub offset_seconds: i32,
}

/// A floating-point literal held exactly, as written.
#[derive(Clone, Debug)]
pub enum Float {
    /// `(-1)^negative * digits * 10^exponent`, where `digits` are the decimal digits of the
    /// literal's integer and fractional parts, in order, without underscores.
    Finite { negative: bool, digits: String, exponent: i64 },
    Infinite { negative: bool },
    NaN,
}

/// The mathematical content of a [`Float`].
pub enum FloatModel {
    Finite { negative: bool, digits: Seq<char>, exponent: int },
    Infinite { negative: bool },
    NaN,
}

impl Float {
    pub open spec fn model(&self) -> FloatModel {
        match self {
            Float::Finite { negative, digits, exponent } => FloatModel::Finite {
                negative: *negative,
                digits: digits@,
                exponent: *exponent as int,
            },
            Float::Infinite { negative } => FloatModel::Infinite { negative: *negative },
            Float::NaN => FloatModel::NaN,
        }
    }

    /// Whether the value is a NaN.
    pub fn is_nan(&self) -> (r: bool)
        ensures
            r == (self.model() is NaN),
    {
        match self {
            Float::NaN => true,
            _ => false,
        }
    }
}

/// A value on the right of `=`, or an element of an array.
#[derive(Debug)]
pub enum Value {
    Str(String),
    Integer(i64),
    Float(Float),
    Boolean(bool),
    OffsetDateTime(OffsetDateTime),
    LocalDateTime(LocalDateTime),
    LocalDate(LocalDate),
    LocalTime(LocalTime),
    Array(Vec<Value>),
    InlineTable(Vec<KeyValue>),
}

/// A key, as its segments, bound to a value.
#[derive(Debug)]
pub struct KeyValue {
    pub key: Vec<String>,
    pub value: Value,
}

/// The mathematical content of a [`Value`].
pub enum ValueModel {
    Str(Seq<char>),
    Integer(int),
    Float(FloatModel),
    Boolean(bool),
    OffsetDateTime(OffsetDateTime),
    LocalDateTime(LocalDateTime),
    LocalDate(LocalDate),
    LocalTime(LocalTime),
    Array(Seq<ValueModel>),
    InlineTable(Seq<(Seq<Seq<char>>, ValueModel)>),
}

/// The segments of a key, as character sequences.
pub open spec fn key_model(key: Seq<String>) -> Seq<Seq<char>> {
    key.map_values(|k: String| k@)
}

/// The model of a value: strings as character sequences, integers as `int`, containers
/// element by element.
pub open spec fn value_model(v: Value) -> ValueModel
    decreases v,
{
    match v {
        Value::Str(s) => ValueModel::Str(s@),
        Value::Integer(n) => ValueModel::Integer(n as int),
        Value::Float(f) => ValueModel::Float(f.model()),
        Value::Boolean(b) => ValueModel::Boolean(b),
        Value::OffsetDateTime(d) => ValueModel::OffsetDateTime(d),
        Value::LocalDateTime(d) => ValueModel::LocalDateTime(d),
        Value::LocalDate(d) => ValueModel::LocalDate(d),
        Value::LocalTime(d) => ValueModel::LocalTime(d),
        Value::Array(items) => ValueModel::Array(
            Seq::new(
                items@.len(),
                |i: int|
                    if 0 <= i < items@.len() {
                        value_model(items@[i])
                    } else {
                        ValueModel::Boolean(false)
                    },
            ),
        ),
        Value::InlineTable(kvs) => ValueModel::InlineTable(
            Seq::new(
                kvs@.len(),
                |i: int|
                    if 0 <= i < kvs@.len() {
                        (key_model(kvs@[i].key@), value_model(kvs@[i].value))
                    } else {
                        (Seq::empty(), ValueModel::Boolean(false))
                    },
            ),
        ),
    }
}

/// The models of a list of values.
pub open spec fn values_model(items: Seq<Value>) -> Seq<ValueModel> {
    items.map_values(|v: Value| value_model(v))
}

/// The models of a list of pairs.
pub open spec fn pairs_model(kvs: Seq<KeyValue>) -> Seq<(Seq<Seq<char>>, ValueModel)> {
    kvs.map_values(|kv: KeyValue| (key_model(kv.key@), value_model(kv.value)))
}

pub proof fn lemma_array_model(items: Vec<Value>)
    ensures
        value_model(Value::Array(items)) == ValueModel::Array(values_model(items@)),
{
    let m = value_model(Value::Array(items));
    assert(m->Array_0 =~= values_model(items@));
}

pub proof fn lemma_inline_table_model(kvs: Vec<KeyValue>)
    ensures
        value_model(Value::InlineTable(kvs)) == ValueModel::InlineTable(pairs_model(kvs@)),
{
    let m = value_model(Value::InlineTable(kvs));
    assert(m->InlineTable_0 =~= pairs_model(kvs@));
}

impl Value {
    pub fn as_str(&self) -> (r: Option<&String>)
        ensures
            r == match self {
                Value::Str(x) => Some(x),
                _ => None::<&String>,
            },
    {
        match self {
            Value::Str(x) => Some(x),
            _ => None,
        }
    }

    pub fn as_integer(&self) -> (r: Option<&i64>)
        ensures
            r == match self {
                Value::Integer(x) => Some(x),
                _ => None::<&i64>,
            },
    {
        match self {
            Value::Integer(x) => Some(x),
            _ => None,
        }
    }

    pub fn as_float(&self) -> (r: Option<&Float>)
        ensures
            r == match self {
                Value::Float(x) => Some(x),
                _ => None::<&Float>,
            },
    {
        match self {
            Value::Float(x) => Some(x),
            _ => None,
        }
    }

    pub fn as_bool(&self) -> (r: Option<&bool>)
        ensures
            r == match self {
                Value::Boolean(x) => Some(x),
                _ => None::<&bool>,
            },
    {
        match self {
            Value::Boolean(x) => Some(x),
            _ => None,
        }
    }

    pub fn as_offset_datetime(&self) -> (r: Option<&OffsetDateTime>)
        ensures
            r == match self {
                Value::OffsetDateTime(x) => Some(x),
                _ => None::<&OffsetDateTime>,
            },
    {
        match self {
            Value::OffsetDateTime(x) => Some(x),
            _ => None,
        }
    }

    pub fn as_local_datetime(&self) -> (r: Option<&LocalDateTime>)
        ensures
            r == match self {
                Value::LocalDateTime(x) => Some(x),
                _ => None::<&LocalDateTime>,
            },
    {
        match self {
            Value::LocalDateTime(x) => Some(x),
            _ => None,
        }
    }

    pub fn as_local_date(&self) -> (r: Option<&LocalDate>)
        ensures
            r == match self {
                Value::LocalDate(x) => Some(x),
                _ => None::<&LocalDate>,
            },
    {
        match self {
            Value::LocalDate(x) => Some(x),
            _ => None,
        }
    }

    pub fn as_local_time(&self) -> (r: Option<&LocalTime>)
        ensures
            r == match self {
                Value::LocalTime(x) => Some(x),
                _ => None::<&LocalTime>,
            },
    {
        match self {
            Value::LocalTime(x) => Some(x),
            _ => None,
        }
    }

    pub fn as_array(&self) -> (r: Option<&Vec<Value>>)
        ensures
            r == match self {
                Value::Array(x) => Some(x),
                _ => None::<&Vec<Value>>,
            },
    {
        match self {
            Value::Array(x) => Some(x),
            _ => None,
        }
    }

    pub fn as_inline_table(&self) -> (r: Option<&Vec<KeyValue>>)
        ensures
            r == match self {
                Value::InlineTable(x) => Some(x),
                _ => None::<&Vec<KeyValue>>,
            },
    {
        match self {
            Value::InlineTable(x) => Some(x),
            _ => None,
        }
    }
}

} // verus!
