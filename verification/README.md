# allocate_core

A workload governor for a desktop machine with performance and efficiency cores. Once
a second it measures how much CPU the running processes use, moves busy background
processes to the efficiency cores, and takes them back when they calm down or come to
the foreground.

`src/` is the library, verified with Verus. It makes every decision:

- `process`: which processes are busy, from two snapshots of their CPU time
- `governor`: which of them are throttled and released, and what the user can set
- `worker`: the order of waiting, sampling, deciding and reporting
- `report`: the table that is printed and sent
- `ipc`: the clients, the messages to them and the settings that they send
- `frontmost`, `battery`: what is made of the system's answers
- `hog`: the load generator's primality test
- `rounding`, `double`, `digits`, `text`, `pids`: numbers in IEEE formats, decimal
  text, and sets of process ids

Percentages are held as the bit patterns of double precision numbers, and all
arithmetic on them is done, and proved, on integers.

`app/` is the daemon around it: system calls, threads and signals.
