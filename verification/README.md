# 🍵 Tea Time

Tea Time (`tt`) is a calculator for time. It reads a line, and answers with a number, a
duration or a text. All arithmetic is exact, and a text that does not show all of a value
is marked with `approx.`, with one exception: `to` the one unit that the line is written in
rounds to whole units, and leaves the mark out (`1.333h to hour` is `1 h`).

```
> 1d 1h + 4h 3m
1 d 5 h 3 m
> now
13 h 15 m 2 s
> now to m
approx. 795.033333333 m
> now to h m
approx. 13 h 15 m
> 1.2h % 15m
12 m
> 1h / 3 to 2dp
approx. 0.33 h
> func a b := a + b
> func 1d 3h
1 d 3 h
> curry := func 1d
> curry 3h
1 d 3 h
> _ + 1h
1 d 4 h
```

## Configuration

Units and functions can be added in `~/.local/tt/config.toml`, or in `config.toml` in the
directory that the platform keeps configurations in.

```TOML
# Custom units
[units.manday]
name = "manday"
aliases = ["md", "devday", "dd", "mandays"]
value = "8h"

# Functions
[functions.example]
name = "example"
aliases = ["ex", "e"]
arguments = ["arg1", "arg2"]
definition = "1d 3m + arg1 - arg2"
```

## Layout

`src/` is the calculator, verified with Verus; `app/` is the terminal program around it.

| module     | what it holds                                                        |
|------------|----------------------------------------------------------------------|
| `number`   | exact integers and rationals, over `num_bigint` and `num_rational`   |
| `text`     | what is used of the standard library's strings                       |
| `decimal`  | reading and writing decimals                                         |
| `syntax`   | tokens, expressions, values, and their mathematical models           |
| `lexer`    | from a line to tokens                                                |
| `units`    | units by name, and durations formed of numbers and units             |
| `parser`   | from tokens to an expression: the grammar is one table               |
| `eval`     | from an expression to a value                                        |
| `format`   | from a value to text                                                 |
| `session`  | lines one after the other: expressions, definitions, the last value  |
| `registry` | the units and functions that there are from the start                |
| `editor`   | the line that is being typed, and the history                        |
| `laws`     | what holds of the library as a whole                                 |

Each executable function says in its contract what it returns, over the models. A function
that functions of the user may keep from ending takes a limit on how deep they call each
other, and `laws` shows that a higher limit changes no answer.
