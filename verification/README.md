# FlowBrake

A per-process network limiter. Packets are intercepted, matched to the process that owns their
port, and dropped where the process, or the whole machine, has used up its rate.

The library under `src/` holds everything the limiter decides, and proves it with Verus. The
program under `app/` is the window, the packet interceptor, and the calls into the system.

## The library

| Modules | What they hold |
| --- | --- |
| `rule`, `speed`, `double`, `rate` | rules, speeds and limits as text, token buckets, averages, adaptive rates |
| `packet`, `divert`, `ports` | reading packets, the interceptor's addresses and errors, who owns a port |
| `engine`, `holding` | what becomes of each packet, and the bounds that this keeps |
| `tcp` | connections: their order, and how they are closed |
| `rows`, `search`, `finding` | the table of processes, and searching it |
| `state`, `consistency` | the program's state, and how it stays in step with the engine |
| `settings`, `stored` | the settings file, and that saved settings load again |
| `views` | what the window shows |
| `process`, `elevation`, `chrome`, `wide` | programs and their names, privileges, the frame, wide text |
| `text`, `number`, `order`, `names` | text, decimal numbers, sorting, sets of names and rules by name |

Speeds and rates are whole numbers of thirds of a millionth of a byte per second, so that averages
of up to six byte counts are exact. What is shown of them is rounded as doubles are; `double` holds
these as pairs of whole numbers. Times are nanoseconds, and every function that depends on the time
takes it as an argument.

State methods never touch the engine: they return the commands that the engine is to be given.

Three things of the standard library are taken on trust, each with its contract: `String::push`,
`char::from_u32` and `str::to_lowercase`.

## The program

The window needs a windowing backend of `slint`, chosen by that crate's features, and
`WinDivert.dll` with `WinDivert64.sys` beside the program. It runs on Windows, with administrator
privileges.
