# bartib

A time tracker kept in a plain text log, with its logic verified by Verus.

Each line of the log holds one activity:

```
2021-09-01 15:00 - 2021-09-01 16:00 | project | description
2021-09-01 16:00 | project | running activity
```

## Layout

- `src/` is the verified library.
  - `time.rs`: timestamps and durations with nanosecond precision (the
    system clock gives the time, chrono the local offset and calendar dates;
    operations that need the current time report when it cannot be had).
  - `activity.rs`: activities, lines of the log, and the notices that
    operations give.
  - `bartib_file.rs`: reading and writing lines of the log; a line read
    back gives the activity that was written, when its times are whole
    minutes and its project and description have no white space at either
    end.
  - `manipulation.rs`: starting, stopping, changing, cancelling and
    continuing activities.
  - `getter.rs`: the distinct activities, ordered by when each was last
    started.
  - `report.rs`, `report_lines.rs`, `format_util.rs`: reports that group
    activities level by level and lay them out as text.
  - `text.rs`: characters of strings, the order of strings, decimal digits.
- `app/` reads and writes the log file, prints notices, opens an editor and
  prints reports.
- `tests/` runs the library on concrete logs.
