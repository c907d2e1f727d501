# avy_terrain

Maps avalanche terrain (slopes of 30 degrees and more) from USGS 10 m elevation
data fetched from OpenTopography.

- `src/` is the verified library: the row-major grid and the 3x3 neighbourhood
  walk of the slope pass (`grid`), the OpenTopography request URL (`request`)
  and the EPSG code of a UTM zone (`epsg`).
- `app/` is the program around it: argument parsing, the HTTP download, the
  GDAL raster reads and writes, Horn's slope formula on `f32` cells, the
  contour tracing and the GeoJSON output.
