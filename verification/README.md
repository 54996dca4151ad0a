# fatxlib

Reading and writing FATX and XTAF volumes, the file systems of the Xbox and the Xbox 360:
opening partitions and disk images, browsing them, changing their files, serving them over
NFS, making new images, and packing Xbox 360 disc images into Games-on-Demand packages on a
volume.

The library under `src/` is written in Verus. What each operation returns and what it leaves
on the device is stated in its contract and proved; how operations work together is stated in
the `law_` proof functions.

| module | what it holds |
| --- | --- |
| `device` | devices that can be read and written at any offset |
| `disk` | the mathematical model of a volume: what every operation gives and leaves behind |
| `types`, `dirent`, `path`, `clock` | superblock, table entries, directory entries, names, time stamps |
| `volume`, `chains`, `directory`, `files`, `trees` | the operations on a volume |
| `laws` | what created, renamed, rewritten and deleted files owe each other, and what keeps a volume sound and its directories a tree |
| `partition`, `platform`, `numbers`, `cli` | finding partitions, devices and mounts; command-line values |
| `mkimage`, `samples` | formatting images and filling them |
| `nfs` | a volume as a network file system |
| `browser` | the state of the file browser |
| `titles` | the names of games |
| `iso`, `iso2god` | disc images and Games-on-Demand packages |

`app/` is the program around the library: the command line, files and block devices, the
terminal and the network.
