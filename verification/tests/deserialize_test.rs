use crystalrake::json::{FromJson, JsonValue};

#[derive(Debug, Eq, PartialEq)]
struct A {
    number: i32,
}

impl A {
    fn new(number: i32) -> A {
        A { number }
    }
}

#[derive(Debug)]
struct JsonDeserializeError {
    message: String,
}

impl FromJson for A {
    type Err = JsonDeserializeError;

    fn from_json(json: &JsonValue) -> Result<Self, Self::Err> {
        match json {
            JsonValue::Number(n) => match n.to_text().parse::<i128>() {
                Ok(v) => Ok(A { number: v as i32 }),
                Err(_) => Err(JsonDeserializeError { message: "fail".to_owned() }),
            },
            _ => Err(JsonDeserializeError { message: "fail".to_owned() }),
        }
    }
}

#[test]
#[allow(overflowing_literals)]
fn simple_deserialize() {
    let a: A = "1000000000000000".parse::<JsonValue>().unwrap().deserialize().unwrap();
    assert_eq!(a, A::new(1000000000000000));
}

#[test]
fn deserialize_rejects_non_number() {
    let r: Result<A, _> = "true".parse::<JsonValue>().unwrap().deserialize();
    let e = r.unwrap_err();
    assert_eq!(e.message, "fail");
}
