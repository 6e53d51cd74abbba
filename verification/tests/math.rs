use ish::math::{Op, Program, DIVISION_BY_ZERO};

/// Runs a compiled expression.
fn run(program: &Program) -> Result<f64, &'static str> {
    let mut stack: Vec<f64> = Vec::new();
    for op in &program.ops {
        if let Op::Num(text) = op {
            stack.push(text.parse::<f64>().unwrap());
            continue;
        }
        let b = stack.pop().unwrap();
        if let Op::Neg = op {
            stack.push(-b);
            continue;
        }
        let a = stack.pop().unwrap();
        let truth = |c: bool| if c { 1.0 } else { 0.0 };
        if b == 0.0 && matches!(op, Op::Div | Op::Rem) {
            return Err(DIVISION_BY_ZERO);
        }
        stack.push(match op {
            Op::Add => a + b,
            Op::Sub => a - b,
            Op::Mul => a * b,
            Op::Div => a / b,
            Op::Rem => a % b,
            Op::Pow => a.powf(b),
            Op::Lt => truth(a < b),
            Op::Gt => truth(a > b),
            Op::Le => truth(a <= b),
            Op::Ge => truth(a >= b),
            Op::Eq => truth(a == b),
            Op::Ne => truth(a != b),
            Op::Num(_) | Op::Neg => unreachable!(),
        });
    }
    match program.error {
        Some(e) => Err(e),
        None => Ok(stack.pop().unwrap()),
    }
}

fn eval(expr: &str) -> Result<String, &'static str> {
    let n = run(&ish::math::eval(expr)?)?;
    if n == n.trunc() && n.abs() < 9e18 {
        Ok(format!("{}", n as i64))
    } else {
        Ok(format!("{n}"))
    }
}

#[test]
fn basic_arithmetic() {
    assert_eq!(eval("2 + 3").unwrap(), "5");
    assert_eq!(eval("10 - 4").unwrap(), "6");
    assert_eq!(eval("3 * 4").unwrap(), "12");
    assert_eq!(eval("15 / 4").unwrap(), "3.75");
    assert_eq!(eval("7 % 3").unwrap(), "1");
}

#[test]
fn precedence() {
    assert_eq!(eval("2 + 3 * 4").unwrap(), "14");
    assert_eq!(eval("(2 + 3) * 4").unwrap(), "20");
}

#[test]
fn power() {
    assert_eq!(eval("2 ** 10").unwrap(), "1024");
    // Right-associative: 2 ** (3 ** 2) = 2 ** 9 = 512
    assert_eq!(eval("2 ** 3 ** 2").unwrap(), "512");
}

#[test]
fn unary_minus() {
    assert_eq!(eval("-5").unwrap(), "-5");
    assert_eq!(eval("-5 + 3").unwrap(), "-2");
    assert_eq!(eval("-(2 + 3)").unwrap(), "-5");
}

#[test]
fn comparisons() {
    assert_eq!(eval("3 > 2").unwrap(), "1");
    assert_eq!(eval("2 > 3").unwrap(), "0");
    assert_eq!(eval("2 == 2").unwrap(), "1");
    assert_eq!(eval("2 != 3").unwrap(), "1");
    assert_eq!(eval("3 <= 3").unwrap(), "1");
    assert_eq!(eval("4 >= 5").unwrap(), "0");
}

#[test]
fn floats() {
    assert_eq!(eval("1.5 + 2.5").unwrap(), "4");
    assert_eq!(eval("1.5 * 2").unwrap(), "3");
}

#[test]
fn division_by_zero() {
    assert!(eval("1 / 0").is_err());
    assert!(eval("1 % 0").is_err());
}

#[test]
fn integer_formatting() {
    assert_eq!(eval("6 / 2").unwrap(), "3");
    assert_eq!(eval("0").unwrap(), "0");
}

#[test]
fn deep_nesting_rejected() {
    let expr = "(".repeat(100) + "1" + &")".repeat(100);
    assert!(eval(&expr).is_err());
}

#[test]
fn reasonable_nesting_ok() {
    assert_eq!(eval("((((1 + 2))))").unwrap(), "3");
}

#[test]
fn errors_of_expressions() {
    assert_eq!(eval("1 = 2"), Err("unexpected '=', did you mean '=='?"));
    assert_eq!(eval("1 ! 2"), Err("unexpected '!', did you mean '!='?"));
    assert_eq!(eval("1.2.3"), Err("invalid number"));
    assert_eq!(eval("."), Err("invalid number"));
    assert_eq!(eval("a"), Err("unexpected character"));
    assert_eq!(eval("1 2"), Err("unexpected token after expression"));
    assert_eq!(eval("1 +"), Err("unexpected end of expression"));
    assert_eq!(eval("(1"), Err("unclosed parenthesis"));
    assert_eq!(eval("*"), Err("expected number or '('"));
    assert_eq!(eval("1 / 0 +"), Err("division by zero"));
}
